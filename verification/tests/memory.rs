//! Reads and writes through packed cells, windows and gates.

use calcite_core::state::{InputEdgeGroup, InputEdgeGroupEntry, WindowedByteArray};
use calcite_core::State;
use std::sync::Arc;

fn add_variable(state: &mut State, name: &str, value: i32) {
    state.state_var_index.insert(name.to_string(), state.state_vars.len());
    state.state_var_names.push(name.to_string());
    state.state_vars.push(value);
}

fn packed_state() -> State {
    let mut state = State::new(8);
    add_variable(&mut state, "mc0", 0);
    add_variable(&mut state, "mc2", 0);
    state.packed_cell_size = 2;
    state.packed_cell_table = vec![-1, 0, -2];
    state
}

#[test]
fn packed_bytes_share_a_cell() {
    let mut state = packed_state();
    state.write_mem(0, 0x134);
    state.write_mem(1, 0x12);
    assert_eq!(state.state_vars[0], 0x1234);
    assert_eq!(state.read_mem(0), 0x34);
    assert_eq!(state.read_mem(1), 0x12);
    assert_eq!(state.read_mem16(0), 0x1234);
    assert_eq!(state.state_vars[1], 0);
    state.write_mem(4, 0xFF);
    assert_eq!(state.state_vars, vec![0x1234, 0xFF]);
    assert_eq!(state.memory, vec![0x34, 0x12, 0, 0, 0xFF, 0, 0, 0]);
}

#[test]
fn unpacked_addresses_stay_in_memory() {
    let mut state = packed_state();
    state.write_mem(2, 9);
    assert_eq!(state.memory[2], 9);
    assert_eq!(state.read_mem(2), 9);
}

#[test]
fn fill_reaches_cells_and_memory() {
    let mut state = packed_state();
    state.bulk_fill_byte(1, 4, 0x5A);
    assert_eq!(state.state_vars, vec![0x5A00, 0x5A]);
    assert_eq!(state.memory, vec![0, 0x5A, 0x5A, 0x5A, 0x5A, 0, 0, 0]);
}

#[test]
fn window_reads_its_array() {
    let mut state = State::new(16);
    add_variable(&mut state, "key", 3);
    state.windowed_byte_array = Some(WindowedByteArray {
        window_base: 4,
        window_end: 8,
        key_cell_slot: 0,
        stride: 4,
        byte_array_base_key: 8,
        byte_array: Arc::new((100..120).collect()),
    });
    state.memory[3] = 1;
    assert_eq!(state.read_mem(4), 104);
    assert_eq!(state.read_mem(7), 107);
    assert_eq!(state.read_mem(3), 1);
    state.state_vars[0] = 9;
    assert_eq!(state.read_mem(4), 0);
}

#[test]
fn words_are_little_endian_in_memory() {
    let mut state = State::new(4);
    state.write_mem(1, 0xCD);
    state.write_mem(2, 0xAB);
    assert_eq!(state.read_mem16(1), 0xABCD);
}

#[test]
fn extended_words_are_kept_whole() {
    let mut state = State::new(4);
    state.write_mem(0xF0000, 0x12345);
    assert_eq!(state.read_mem(0xF0000), 0x12345);
    assert_eq!(state.extended.get(&0xF0000), Some(&0x12345));
    assert_eq!(state.read_mem(0xF0001), 0);
}

#[test]
fn logs_record_accesses() {
    let mut state = State::new(4);
    state.read_log = Some(Vec::new());
    state.write_log = Some(Vec::new());
    state.write_mem(2, 0x1FF);
    let got = state.read_mem(2);
    assert_eq!(got, 0xFF);
    assert_eq!(state.peek_mem(2), 0xFF);
    assert_eq!(state.write_log, Some(vec![(2, 0x1FF)]));
    assert_eq!(state.read_log, Some(vec![(2, 0xFF)]));
}

#[test]
fn packed_reads_are_logged() {
    let mut state = packed_state();
    state.state_vars[0] = 0x1234;
    state.read_log = Some(Vec::new());
    state.read_mem(1);
    state.read_mem16(0);
    state.read_mem(2);
    assert_eq!(state.read_log, Some(vec![(1, 0x12), (0, 0x34), (1, 0x12), (2, 0)]));
}

#[test]
fn gates_sum_into_their_variable() {
    let mut state = State::new(4);
    add_variable(&mut state, "keyboard", 0);
    let edge = |selector: &str, value: i32| InputEdgeGroupEntry {
        pseudo: "active".to_string(),
        selector: selector.to_string(),
        value,
    };
    state.input_edge_groups = vec![InputEdgeGroup {
        slot: 0,
        edges: vec![edge("kb-1", 30), edge("kb-2", 48)],
    }];
    state.set_pseudo_class_active("active", "kb-1", true);
    assert_eq!(state.state_vars[0], 30);
    state.set_pseudo_class_active("active", "kb-2", true);
    state.set_pseudo_class_active("active", "kb-2", true);
    assert_eq!(state.state_vars[0], 78);
    assert!(state.pseudo_class_active("active", "kb-2"));
    assert!(state.pseudo_class_active_pair("active", "kb-2"));
    assert!(!state.pseudo_class_active("hover", "kb-2"));
    state.set_pseudo_class_active("active", "kb-1", false);
    assert_eq!(state.state_vars[0], 48);
    state.set_pseudo_class_active("active", "kb-2", false);
    assert_eq!(state.state_vars[0], 0);
    assert!(state.pseudo_active.is_empty());
}

#[test]
fn keys_are_queued_in_a_ring() {
    let mut state = State::default();
    state.write_mem(0x41A, 0x1E);
    state.write_mem(0x41C, 0x1E);
    state.write_mem(0x480, 0x1E);
    state.write_mem(0x482, 0x22);
    state.bda_push_key(0x1C0D);
    assert_eq!(state.read_mem16(0x41E), 0x1C0D);
    assert_eq!(state.read_mem16(0x41C), 0x20);
    state.bda_push_key(0x1234);
    assert_eq!(state.read_mem16(0x41C), 0x20);
    state.write_mem(0x41A, 0x20);
    state.bda_push_key(0x1E61);
    assert_eq!(state.read_mem16(0x420), 0x1E61);
    assert_eq!(state.read_mem16(0x41C), 0x1E);
}

#[test]
fn fill_is_a_write_per_address() {
    let mut filled = packed_state();
    filled.bulk_fill_byte(1, 6, 0x99);
    let mut written = packed_state();
    for addr in 1..7 {
        written.write_mem(addr, 0x99);
    }
    assert_eq!(filled.memory, written.memory);
    assert_eq!(filled.state_vars, written.state_vars);
}

#[test]
fn memory_and_cells_stay_in_step() {
    let mut state = packed_state();
    state.write_mem(0, 0x11);
    state.bulk_fill_byte(4, 2, 0x22);
    state.bulk_copy_bytes(4, 1, 1);
    for addr in [0, 1, 4, 5] {
        assert_eq!(state.read_mem(addr), state.memory[addr as usize] as i32, "{addr}");
    }
    assert_eq!(state.state_vars, vec![0x2211, 0x2222]);
}

#[test]
fn copies_run_patterns_out() {
    let mut state = State::new(16);
    state.memory[0] = 1;
    state.memory[1] = 2;
    state.bulk_copy_bytes(0, 2, 7);
    assert_eq!(&state.memory[..10], &[1, 2, 1, 2, 1, 2, 1, 2, 1, 0]);
}

#[test]
fn negative_edges_are_summed_exactly() {
    let mut state = State::new(4);
    add_variable(&mut state, "axis", 0);
    let edge = |selector: &str, value: i32| InputEdgeGroupEntry {
        pseudo: "active".to_string(),
        selector: selector.to_string(),
        value,
    };
    state.input_edge_groups = vec![InputEdgeGroup {
        slot: 0,
        edges: vec![edge("left", -100), edge("right", 30), edge("left", -5)],
    }];
    state.set_pseudo_class_active("active", "left", true);
    assert_eq!(state.state_vars[0], -105);
    state.set_pseudo_class_active("active", "right", true);
    assert_eq!(state.state_vars[0], -75);
}

#[test]
fn fill_reaches_extended_words_and_the_log() {
    let mut state = State::new(8);
    state.write_log = Some(Vec::new());
    state.bulk_fill_byte(0xEFFFF, 3, 0xAB);
    assert_eq!(state.extended.get(&0xF0000), Some(&0xAB));
    assert_eq!(state.extended.get(&0xF0001), Some(&0xAB));
    assert_eq!(state.extended.len(), 2);
    assert_eq!(
        state.write_log,
        Some(vec![(0xEFFFF, 0xAB), (0xF0000, 0xAB), (0xF0001, 0xAB)])
    );
}

#[test]
fn copies_reach_extended_words() {
    let mut state = State::new(8);
    state.memory[2] = 0x11;
    state.memory[3] = 0x22;
    state.bulk_copy_bytes(2, 0xF0000, 2);
    assert_eq!(state.read_mem(0xF0000), 0x11);
    assert_eq!(state.read_mem(0xF0001), 0x22);
    state.bulk_copy_bytes(0xF0001, 5, 1);
    assert_eq!(state.memory[5], 0x22);
}

#[test]
fn a_copy_of_a_state_is_independent() {
    let mut state = packed_state();
    add_variable(&mut state, "AX", 7);
    state.write_mem(0xF0000, 5);
    state.string_properties.insert("--text".to_string(), "abc".to_string());
    state.read_log = Some(vec![(1, 2)]);
    state.set_pseudo_class_active("active", "kb-1", true);
    let copy = state.clone();
    assert_eq!(copy.snapshot(), state.snapshot());
    assert_eq!(copy.get_var("AX"), Some(7));
    assert_eq!(copy.state_var_names, state.state_var_names);
    assert_eq!(copy.extended, state.extended);
    assert_eq!(copy.read_log, Some(vec![(1, 2)]));
    assert_eq!(copy.packed_cell_table, state.packed_cell_table);
    assert_eq!(copy.string_properties.get("--text").unwrap(), "abc");
    assert!(copy.pseudo_class_active("active", "kb-1"));
    state.set_var("AX", 8);
    state.write_mem(0, 9);
    assert_eq!(copy.get_var("AX"), Some(7));
    assert_eq!(copy.peek_mem(0), 0);
}

#[test]
fn copies_reach_packed_cells_beyond_the_bytes() {
    let mut state = State::new(8);
    add_variable(&mut state, "dac", 0);
    state.packed_cell_size = 2;
    state.packed_cell_table = vec![0; 0x78001];
    state.packed_cell_table[0x78000] = -1;
    state.memory[2] = 5;
    state.memory[3] = 6;
    state.memory[4] = 7;
    state.bulk_copy_bytes(2, 0xF0000, 3);
    assert_eq!(state.state_vars[0], 0x0605);
    assert_eq!(state.read_mem(0xF0000), 5);
    assert_eq!(state.read_mem(0xF0001), 6);
    assert_eq!(state.read_mem(0xF0002), 7);
    assert_eq!(state.extended.len(), 1);
    assert_eq!(state.extended.get(&0xF0002), Some(&7));
}

#[test]
fn copies_reach_a_long_byte_array() {
    let mut state = State::new(0xF0004);
    state.memory[2] = 9;
    state.bulk_copy_bytes(2, 0xF0001, 1);
    assert_eq!(state.memory[0xF0001], 9);
    assert_eq!(state.read_mem(0xF0001), 9);
}

#[test]
fn a_copy_may_end_at_the_last_address() {
    let mut state = State::new(8);
    add_variable(&mut state, "AX", 0x1FE);
    state.bulk_copy_bytes(usize::MAX, 3, 1);
    assert_eq!(state.memory[3], 0xFE);
    let before = state.snapshot();
    state.bulk_copy_bytes(3, usize::MAX, 1);
    state.bulk_copy_bytes(usize::MAX, usize::MAX, 0);
    assert_eq!(state.snapshot(), before);
}
