//! Going forward and backward over recorded differences.

use calcite_core::state::StateDelta;
use calcite_core::State;

fn delta() -> StateDelta {
    StateDelta {
        frame_counter_before: 3,
        frame_counter_after: 4,
        state_vars: vec![(0, 5, 9)],
        memory: vec![(1, 0, 0xAB), (2, 0x11, 0)],
        extended: vec![(0xF0000, None, Some(77)), (0xF0001, Some(8), None)],
        string_properties: vec![
            ("--title".to_string(), None, Some("hello".to_string())),
            ("--old".to_string(), Some("x".to_string()), Some("y".to_string())),
        ],
    }
}

fn before() -> State {
    let mut state = State::new(4);
    state.state_vars.push(5);
    state.state_var_names.push("A".to_string());
    state.state_var_index.insert("A".to_string(), 0);
    state.frame_counter = 3;
    state.memory[2] = 0x11;
    state.write_mem(0xF0001, 8);
    state.string_properties.insert("--old".to_string(), "x".to_string());
    state
}

#[test]
fn applying_moves_every_channel() {
    let mut state = before();
    state.apply_delta(&delta());
    assert_eq!(state.frame_counter, 4);
    assert_eq!(state.state_vars, vec![9]);
    assert_eq!(state.memory, vec![0, 0xAB, 0, 0]);
    assert_eq!(state.read_mem(0xF0000), 77);
    assert_eq!(state.extended.len(), 1);
    assert_eq!(state.string_properties.get("--title").map(|s| s.as_str()), Some("hello"));
    assert_eq!(state.string_properties.get("--old").map(|s| s.as_str()), Some("y"));
}

#[test]
fn reverting_undoes_applying() {
    let mut state = before();
    state.apply_delta(&delta());
    state.revert_delta(&delta());
    assert_eq!(state.snapshot(), before().snapshot());
    assert_eq!(state.frame_counter, 3);
    assert!(state.string_properties.get("--title").is_none());
}

#[test]
fn changes_are_counted_over_all_channels() {
    assert_eq!(delta().total_changes(), 7);
    assert_eq!(StateDelta::default().total_changes(), 0);
}
