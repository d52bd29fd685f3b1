//! Numbers, names, texts and programs.

use calcite_core::fields::{cut_at, join, read_number, split, trim};
use calcite_core::names::{bare_name, is_buffer_copy, keeps_property, to_bare_name};
use calcite_core::number::Number;
use calcite_core::program::CompiledProgram;
use calcite_core::tables::StringTable;
use calcite_core::text::replace_all;
use calcite_core::types::{CssValue, PropertyDef, PropertySyntax};
use calcite_core::state::{State, WindowedByteArray};
use std::sync::Arc;

fn number(v: f64) -> Number {
    Number::from_bits(v.to_bits())
}

#[test]
fn numbers_convert_like_floats() {
    for v in [
        0.0,
        -0.0,
        0.5,
        -0.5,
        1.0,
        -1.75,
        255.0,
        65536.25,
        2147483647.0,
        2147483648.0,
        -2147483649.5,
        9007199254740993.0,
        1e18,
        9.3e18,
        -9.3e18,
        1e300,
        5e-324,
        f64::INFINITY,
        f64::NEG_INFINITY,
        f64::NAN,
    ] {
        assert_eq!(number(v).to_i64(), v as i64, "{v}");
        assert_eq!(number(v).to_i32(), v as i32, "{v}");
        assert_eq!(number(v).is_whole_number(), v.is_finite() && v.fract() == 0.0, "{v}");
    }
}

#[test]
fn whole_numbers_are_compared_exactly() {
    assert!(number(16.0).equals_int(16));
    assert!(!number(16.5).equals_int(16));
    assert!(number(-0.0).equals_int(0));
    assert!(number(8.0).is_twice_of(number(4.0)));
    assert!(!number(9.0).is_twice_of(number(4.0)));
    assert!(number(-2.0).is_twice_of(number(-1.0)));
}

#[test]
fn numbers_are_equal_by_their_bits() {
    assert_ne!(number(-0.0), number(0.0));
    assert_ne!(number(-1.0), number(1.0));
    assert_eq!(number(1.5), number(1.5));
}

#[test]
fn names_lose_their_marks() {
    assert_eq!(bare_name("--AX"), "AX");
    assert_eq!(bare_name("AX"), "AX");
    assert!(is_buffer_copy("--__1AX"));
    assert!(!is_buffer_copy("--__AX"));
    assert!(!is_buffer_copy("--__"));
    assert_eq!(to_bare_name("--__2IP"), "IP");
    assert_eq!(to_bare_name("--IP"), "IP");
    assert!(keeps_property("--__1m5", "--m5"));
    assert!(keeps_property("--m5", "--m5"));
    assert!(!keeps_property("--__1m6", "--m5"));
    assert!(!keeps_property("m5", "--m5"));
    assert!(keeps_property("--__0m5", "--m5"));
    assert!(keeps_property("--__2m5", "--m5"));
    assert!(!keeps_property("--__9mc5", "--mc5"));
    assert!(!keeps_property("--__", "--m5"));
    assert!(!keeps_property("--__\u{e9}m5", "--m5"));
}

#[test]
fn texts_are_split_and_joined() {
    let parts = split("a,,b", ',');
    assert_eq!(parts, vec!["a", "", "b"]);
    assert_eq!(join(&parts, 0, 3, ','), "a,,b");
    assert_eq!(split("", ','), vec![""]);
    assert_eq!(trim(" \t\u{a0}x y\u{3000}\n"), "x y");
    assert_eq!(cut_at("a!=b!=c", "!="), Some(("a".to_string(), "b!=c".to_string())));
    assert_eq!(cut_at("abc", "="), None);
    assert_eq!(replace_all("{n}-{n}", "{n}", "7"), "7-7");
}

#[test]
fn number_texts_read_like_integers() {
    for s in ["0", "-0", "+7", " 42 ", "-9223372036854775808", "9223372036854775808", "1_0", "", "-"] {
        assert_eq!(read_number(s), s.trim().parse::<i64>().ok(), "{s}");
    }
    for s in ["0", "ff", "FF", "-a", "+B", "g", "", "7fffffffffffffff", "8000000000000000"] {
        assert_eq!(read_number(&format!("0x{s}")), i64::from_str_radix(s, 16).ok(), "{s}");
        assert_eq!(read_number(&format!("0X{s}")), i64::from_str_radix(s, 16).ok(), "{s}");
    }
}

#[test]
fn written_numbers_read_back() {
    for v in [0, 1, -1, 9, 10, 255, -256, 0xABCDEF, i64::MAX, i64::MIN] {
        assert_eq!(read_number(&format!("{v}")), Some(v), "{v}");
        assert_eq!(read_number(&format!("\t {v}\n")), Some(v), "{v}");
        if v >= 0 {
            assert_eq!(read_number(&format!("0x{v:x}")), Some(v), "{v}");
            assert_eq!(read_number(&format!("0X{v:X}")), Some(v), "{v}");
            assert_eq!(read_number(&format!("  0x{v:X} ")), Some(v), "{v}");
        }
    }
}

#[test]
fn string_table_keeps_one_value_per_name() {
    let mut table = StringTable::new();
    table.insert("b".to_string(), "1".to_string());
    table.insert("a".to_string(), "2".to_string());
    table.insert("b".to_string(), "3".to_string());
    assert_eq!(table.len(), 2);
    assert_eq!(table.get("b").map(|s| s.as_str()), Some("3"));
    assert_eq!(table.entry(0).0, "a");
    table.remove("a");
    table.remove("zz");
    assert!(table.get("a").is_none());
    assert_eq!(table.len(), 1);
}

#[test]
fn properties_come_from_slots_or_variables() {
    let mut state = State::default();
    state.load_properties(&[PropertyDef {
        name: "--AX".to_string(),
        syntax: PropertySyntax::Integer,
        inherits: true,
        initial_value: Some(CssValue::Integer(5)),
    }]);
    let mut program = CompiledProgram::new();
    program.property_slots.insert("--AX".to_string(), 1);
    let slots = [0, 77];
    assert_eq!(program.read_prop(&state, &slots, "--AX"), Some(77));
    assert_eq!(program.read_prop(&state, &slots, "--__1AX"), Some(5));
    assert_eq!(program.read_prop(&state, &slots, "--BX"), None);
    assert_eq!(program.read_or_zero(&state, &slots, "--BX"), 0);
}

#[test]
fn ranges_touch_virtual_regions() {
    let mut program = CompiledProgram::new();
    program.virtual_regions.push((100, 200));
    let mut state = State::default();
    assert!(program.ranges_overlap_virtual(&state, 199, 300));
    assert!(program.ranges_overlap_virtual(&state, 0, 101));
    assert!(!program.ranges_overlap_virtual(&state, 200, 300));
    assert!(!program.ranges_overlap_virtual(&state, 0, 100));
    state.windowed_byte_array = Some(WindowedByteArray {
        window_base: 250,
        window_end: 260,
        key_cell_slot: 0,
        stride: 1,
        byte_array_base_key: 0,
        byte_array: Arc::new(Vec::new()),
    });
    assert!(program.ranges_overlap_virtual(&state, 200, 251));
    assert!(!program.ranges_overlap_virtual(&state, 260, 300));
}
