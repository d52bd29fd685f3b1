//! Snapshots and their restoration.

use calcite_core::State;

fn sample() -> State {
    let mut state = State::new(3);
    state.state_vars = vec![7, -2];
    state.state_var_names = vec!["A".to_string(), "B".to_string()];
    state.state_var_index.insert("A".to_string(), 0);
    state.state_var_index.insert("B".to_string(), 1);
    state.memory[1] = 0xEE;
    state.write_mem(0xF0010, -5);
    state.write_mem(0xF0002, 9);
    state.string_properties.insert("--t".to_string(), "h\u{e9}".to_string());
    state.string_properties.insert("--a".to_string(), String::new());
    state.frame_counter = 42;
    state
}

#[test]
fn snapshot_layout() {
    let blob = sample().snapshot();
    let mut want: Vec<u8> = Vec::new();
    want.extend(b"CSNP");
    want.extend(1u32.to_le_bytes());
    want.extend(2u32.to_le_bytes());
    want.extend(7i32.to_le_bytes());
    want.extend((-2i32).to_le_bytes());
    want.extend(3u32.to_le_bytes());
    want.extend([0, 0xEE, 0]);
    want.extend(2u32.to_le_bytes());
    want.extend(0xF0002i32.to_le_bytes());
    want.extend(9i32.to_le_bytes());
    want.extend(0xF0010i32.to_le_bytes());
    want.extend((-5i32).to_le_bytes());
    want.extend(2u32.to_le_bytes());
    want.extend(3u32.to_le_bytes());
    want.extend(b"--a");
    want.extend(0u32.to_le_bytes());
    want.extend(3u32.to_le_bytes());
    want.extend(b"--t");
    want.extend(3u32.to_le_bytes());
    want.extend("h\u{e9}".as_bytes());
    want.extend(42u32.to_le_bytes());
    assert_eq!(blob, want);
}

#[test]
fn restore_gives_back_what_was_snapshot() {
    let blob = sample().snapshot();
    let mut other = sample();
    other.state_vars = vec![0, 0];
    other.memory = vec![1, 2, 3];
    other.write_mem(0xF0099, 1);
    other.string_properties.clear();
    other.frame_counter = 0;
    assert_eq!(other.restore(&blob), Ok(()));
    assert_eq!(other.state_vars, vec![7, -2]);
    assert_eq!(other.memory, vec![0, 0xEE, 0]);
    assert_eq!(other.extended.len(), 2);
    assert_eq!(other.read_mem(0xF0010), -5);
    assert_eq!(other.read_mem(0xF0099), 0);
    assert_eq!(other.string_properties.get("--t").map(|s| s.as_str()), Some("h\u{e9}"));
    assert_eq!(other.frame_counter, 42);
    assert_eq!(other.snapshot(), blob);
}

#[test]
fn restore_rejects_foreign_bytes() {
    let mut state = sample();
    assert_eq!(state.restore(b"CS"), Err("snapshot truncated"));
    assert_eq!(state.restore(b"XXXX\x01\0\0\0"), Err("snapshot: bad magic (expected CSNP)"));
    assert_eq!(state.restore(b"CSNP\x02\0\0\0"), Err("snapshot: unsupported version"));
    assert_eq!(
        state.restore(b"CSNP\x01\0\0\0\x05\0\0\0"),
        Err("snapshot: state_vars length mismatch (different cabinet?)")
    );
    let mut larger = sample();
    larger.memory.push(0);
    assert_eq!(
        state.restore(&larger.snapshot()),
        Err("snapshot: memory length mismatch (different cabinet?)")
    );
}

#[test]
fn restore_rejects_every_proper_prefix() {
    let blob = sample().snapshot();
    for n in 0..blob.len() {
        assert!(sample().restore(&blob[..n]).is_err(), "prefix of {n} bytes");
    }
}

#[test]
fn restore_rejects_bad_text() {
    let blob = sample().snapshot();
    let name_at = blob.windows(3).position(|w| w == b"--a").unwrap();
    let mut bad_name = blob.clone();
    bad_name[name_at] = 0xFF;
    assert_eq!(sample().restore(&bad_name), Err("snapshot: bad utf-8 in name"));
    let value_at = blob.windows(3).position(|w| w == "h\u{e9}".as_bytes()).unwrap();
    let mut bad_value = blob.clone();
    bad_value[value_at + 1] = 0xFF;
    assert_eq!(sample().restore(&bad_value), Err("snapshot: bad utf-8 in value"));
}
