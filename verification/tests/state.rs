//! Reading and writing a machine's state.

use calcite_core::state::{State, DEFAULT_MEM_SIZE};

fn test_state() -> State {
    let mut state = State::new(DEFAULT_MEM_SIZE);

    let names = vec!["AX", "CX", "DX", "BX"];
    for (i, name) in names.iter().enumerate() {
        state.state_vars.push(0);
        state.state_var_names.push(name.to_string());
        state.state_var_index.insert(name.to_string(), i);
    }
    state
}

#[test]
fn state_var_addressing() {
    let mut state = test_state();

    state.state_vars[0] = 0x1234;
    assert_eq!(state.read_mem(-1), 0x1234);

    state.write_mem(-1, 0xABCD);
    assert_eq!(state.state_vars[0], 0xABCD);
}

#[test]
fn state_var_by_name() {
    let mut state = test_state();
    state.set_var("AX", 42);
    assert_eq!(state.get_var("AX"), Some(42));
    assert_eq!(state.get_var("nonexistent"), None);
}

#[test]
fn memory_addressing() {
    let mut state = State::default();
    state.write_mem(0x100, 0x42);
    assert_eq!(state.read_mem(0x100), 0x42);
}

#[test]
fn read16_little_endian() {
    let mut state = State::default();
    state.write_mem(0x10, 0x34);
    state.write_mem(0x11, 0x12);
    assert_eq!(state.read_mem16(0x10), 0x1234);
}

#[test]
fn byte_extraction() {
    assert_eq!(State::lo8(0x1234), 0x34);
    assert_eq!(State::hi8(0x1234), 0x12);
}

#[test]
fn out_of_range_state_var() {
    let mut state = test_state();

    assert_eq!(state.read_mem(-100), 0);
}

#[test]
fn state_var_stores_full_value() {
    let mut state = test_state();

    state.write_mem(-1, 0x1_ABCD);
    assert_eq!(state.state_vars[0], 0x1_ABCD);

    state.write_mem(-2, -2);
    assert_eq!(state.state_vars[1], -2);
}

#[test]
fn bulk_copy_bytes_lz77_repeat() {
    let mut state = State::default();
    state.write_mem(0x100, b'A' as i32);
    state.write_mem(0x101, b'B' as i32);
    state.write_mem(0x102, b'C' as i32);

    state.bulk_copy_bytes(0x100, 0x103, 6);
    assert_eq!(state.read_mem(0x103), b'A' as i32);
    assert_eq!(state.read_mem(0x104), b'B' as i32);
    assert_eq!(state.read_mem(0x105), b'C' as i32);
    assert_eq!(state.read_mem(0x106), b'A' as i32);
    assert_eq!(state.read_mem(0x107), b'B' as i32);
    assert_eq!(state.read_mem(0x108), b'C' as i32);
}

#[test]
fn bulk_copy_bytes_disjoint() {
    let mut state = State::default();
    for i in 0..4 { state.write_mem(0x200 + i, (i + 1) as i32); }
    state.bulk_copy_bytes(0x200, 0x300, 4);
    for i in 0..4 {
        assert_eq!(state.read_mem(0x300 + i), (i + 1) as i32);

        assert_eq!(state.read_mem(0x200 + i), (i + 1) as i32);
    }
}
