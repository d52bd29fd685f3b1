//! What bulk application promises of every loop.

use calcite_core::number::Number;
use calcite_core::pattern::loop_descriptor::{
    evaluate_precondition, evaluate_style_test_runtime, BulkClass, ComparisonShape,
    ComparisonSource, CounterEntry, CycleCharge, IndirectRead, LoopDescriptor, PointerEntry,
    Precondition, WriteEntry,
};
use calcite_core::pattern::rep_applier::{
    apply_copy, apply_fill, apply_fill_with_commit, apply_read_only_with_commit,
    compute_sub_flags, ApplyOutcome, CommitMode,
};
use calcite_core::program::CompiledProgram;
use calcite_core::types::{CssValue, Expr, PropertyDef, PropertySyntax, StyleTest};
use calcite_core::state::{State, WindowedByteArray};
use std::sync::Arc;

fn lit(v: f64) -> Expr {
    Expr::Literal(Number::from_bits(v.to_bits()))
}

fn test_of(property: &str, v: f64) -> StyleTest {
    StyleTest::Single { property: property.to_string(), value: lit(v) }
}

fn pointer(name: &str) -> PointerEntry {
    PointerEntry {
        property: name.to_string(),
        self_property: name.to_string(),
        base_step: 1,
        flag_property: "--flags".to_string(),
        flag_bit: 10,
    }
}

fn descriptor(class: BulkClass) -> LoopDescriptor {
    let copy = class == BulkClass::Copy;
    LoopDescriptor {
        key_property: "--op".to_string(),
        key_value: 1,
        ip_property: "--IP".to_string(),
        ip_self_property: "--__1IP".to_string(),
        ip_advance_literal: 1,
        predicate_properties: vec!["--go".to_string()],
        predicate: test_of("--go", 1.0),
        predicate_means_stay: true,
        counter: Some(CounterEntry {
            property: "--CX".to_string(),
            self_property: "--__1CX".to_string(),
            step: 1,
        }),
        pointers: if copy { vec![pointer("--DI"), pointer("--SI")] } else { vec![pointer("--DI")] },
        writes: vec![WriteEntry {
            addr_property: "--addr".to_string(),
            val_property: "--val".to_string(),
            addr_expr: lit(0.0),
            val_expr: Expr::Var {
                name: if copy { "--src".to_string() } else { "--AL".to_string() },
                fallback: None,
            },
            addr_decomposition: Some(("--ES".to_string(), "--DI".to_string())),
            val_indirect_read: if copy {
                Some(IndirectRead {
                    seg_property: Some("--DS".to_string()),
                    seg_times_sixteen: true,
                    pointer_property: "--SI".to_string(),
                    intermediate_property: "--src".to_string(),
                })
            } else {
                None
            },
        }],
        flag_conditioned: false,
        bulk_class: class,
        per_iter_cycles: Some(CycleCharge { property: "--cycles".to_string(), per_iter: 10 }),
        ip_extra_advance_slot: Some("--prefix".to_string()),
        comparison_shape: None,
        precondition: None,
    }
}

fn machine(values: &[(&str, i64)]) -> State {
    let mut state = State::new(0x1000);
    let props: Vec<PropertyDef> = values
        .iter()
        .map(|(n, v)| PropertyDef {
            name: format!("--{n}"),
            syntax: PropertySyntax::Integer,
            inherits: true,
            initial_value: Some(CssValue::Integer(*v)),
        })
        .collect();
    state.load_properties(&props);
    state
}

#[test]
fn copy_in_two_parts_is_copy_in_one() {
    let desc = descriptor(BulkClass::Copy);
    let program = CompiledProgram::new();
    let at = |cx: i64, done: i64| {
        machine(&[
            ("CX", cx),
            ("DI", 0x43 + done),
            ("SI", 0x40 + done),
            ("ES", 2),
            ("DS", 2),
            ("flags", 0),
        ])
    };
    let mut whole = at(9, 0);
    whole.memory[0x60] = 1;
    whole.memory[0x61] = 2;
    whole.memory[0x62] = 3;
    let mut first = at(4, 0);
    first.memory = whole.memory.clone();
    assert_eq!(
        apply_copy(&desc, &program, &mut whole, &[]),
        ApplyOutcome::Applied { iterations: 9 }
    );
    apply_copy(&desc, &program, &mut first, &[]);
    let mut second = at(5, 4);
    second.memory = first.memory.clone();
    apply_copy(&desc, &program, &mut second, &[]);
    assert_eq!(whole.memory, second.memory);
    assert_eq!(&whole.memory[0x63..0x6C], &[1, 2, 3, 1, 2, 3, 1, 2, 3]);
}

#[test]
fn refused_loops_change_nothing() {
    let desc = descriptor(BulkClass::PerIter);
    let program = CompiledProgram::new();
    let mut state = machine(&[("CX", 3), ("DI", 0), ("ES", 0), ("AL", 9), ("flags", 0)]);
    let before = state.snapshot();
    assert!(matches!(apply_fill(&desc, &program, &mut state, &[]), ApplyOutcome::Unsupported(_)));
    assert_eq!(state.snapshot(), before);
}

#[test]
fn virtual_regions_are_left_to_the_machine() {
    let desc = descriptor(BulkClass::Fill);
    let mut program = CompiledProgram::new();
    program.virtual_regions.push((0x22, 0x23));
    let mut state = machine(&[("CX", 3), ("DI", 0x20), ("ES", 0), ("AL", 9), ("flags", 0)]);
    assert!(matches!(apply_fill(&desc, &program, &mut state, &[]), ApplyOutcome::PerIterFallback(_)));
    assert_eq!(state.memory[0x20], 0);
}

#[test]
fn slots_are_preferred_to_variables() {
    let desc = descriptor(BulkClass::Fill);
    let mut program = CompiledProgram::new();
    program.property_slots.insert("--AL".to_string(), 0);
    program.property_slots.insert("--prefix".to_string(), 1);
    let mut state =
        machine(&[("CX", 2), ("DI", 0x20), ("ES", 1), ("AL", 9), ("flags", 0), ("IP", 5)]);
    let outcome =
        apply_fill_with_commit(&desc, &program, &mut state, &[0x55, 2], CommitMode::Full);
    assert_eq!(outcome, ApplyOutcome::Applied { iterations: 2 });
    assert_eq!(&state.memory[0x2F..0x33], &[0, 0x55, 0x55, 0]);
    assert_eq!(state.get_var("CX"), Some(0));
    assert_eq!(state.get_var("DI"), Some(0x22));
    assert_eq!(state.get_var("IP"), Some(8));
}

#[test]
fn comparison_sets_the_zero_flag_of_its_last_pair() {
    let mut desc = descriptor(BulkClass::ReadOnly);
    desc.writes.clear();
    desc.flag_conditioned = true;
    desc.comparison_shape = Some(ComparisonShape {
        width: 1,
        dst_seg_property: "--ES".to_string(),
        dst_seg_times_sixteen: true,
        dst_ptr_property: "--DI".to_string(),
        source: ComparisonSource::Accumulator {
            byte_property: "--AL".to_string(),
            word_property: "--AX".to_string(),
        },
        rep_type_property: Some("--repType".to_string()),
    });
    let program = CompiledProgram::new();
    let mut state = machine(&[
        ("CX", 10),
        ("DI", 0x20),
        ("ES", 0),
        ("AL", 7),
        ("flags", 0),
        ("repType", 2),
        ("prefix", 0),
    ]);
    state.memory[0x24] = 7;
    let outcome = apply_read_only_with_commit(&desc, &program, &mut state, &[], CommitMode::Full);
    assert_eq!(outcome, ApplyOutcome::Applied { iterations: 5 });
    assert_eq!(state.get_var("DI"), Some(0x25));
    assert_eq!(state.get_var("CX"), Some(5));
    assert_eq!(state.get_var("flags").unwrap() & 0x40, 0x40);
}

fn pair_comparison() -> LoopDescriptor {
    let mut desc = descriptor(BulkClass::ReadOnly);
    desc.writes.clear();
    desc.flag_conditioned = true;
    desc.pointers = vec![pointer("--DI"), pointer("--SI")];
    desc.comparison_shape = Some(ComparisonShape {
        width: 1,
        dst_seg_property: "--ES".to_string(),
        dst_seg_times_sixteen: true,
        dst_ptr_property: "--DI".to_string(),
        source: ComparisonSource::Pointer {
            seg_property: "--DS".to_string(),
            seg_times_sixteen: true,
            ptr_property: "--SI".to_string(),
        },
        rep_type_property: Some("--repType".to_string()),
    });
    desc
}

fn pair_machine() -> State {
    let mut state = machine(&[
        ("CX", 10),
        ("DI", 0x20),
        ("SI", 0x40),
        ("ES", 0x10),
        ("DS", 0),
        ("flags", 0),
        ("repType", 1),
        ("prefix", 0),
    ]);
    for i in 0..10 {
        state.memory[0x120 + i] = i as u8;
        state.memory[0x40 + i] = i as u8;
    }
    state.memory[0x43] = 0x77;
    state
}

#[test]
fn the_order_of_the_pointers_does_not_matter() {
    let program = CompiledProgram::new();
    let desc = pair_comparison();
    let mut swapped = desc.clone();
    swapped.pointers.reverse();
    let mut one = pair_machine();
    let mut other = pair_machine();
    let outcome = apply_read_only_with_commit(&desc, &program, &mut one, &[], CommitMode::Full);
    assert_eq!(outcome, ApplyOutcome::Applied { iterations: 4 });
    assert_eq!(
        apply_read_only_with_commit(&swapped, &program, &mut other, &[], CommitMode::Full),
        outcome
    );
    assert_eq!(one.snapshot(), other.snapshot());
    assert_eq!(one.get_var("DI"), Some(0x24));
    assert_eq!(one.get_var("SI"), Some(0x44));
}

#[test]
fn descriptors_are_equal_whatever_the_order_of_their_pointers() {
    let desc = pair_comparison();
    let mut swapped = desc.clone();
    swapped.pointers.reverse();
    assert_eq!(desc, swapped);
    let mut doubled = desc.clone();
    doubled.pointers[1] = pointer("--DI");
    assert_ne!(desc, doubled);
    let mut shorter = desc.clone();
    shorter.pointers.pop();
    assert_ne!(desc, shorter);
    let mut other = desc.clone();
    other.key_value = 2;
    assert_ne!(desc, other);
    other = desc.clone();
    other.writes = descriptor(BulkClass::Fill).writes;
    assert_ne!(desc, other);
}

#[test]
fn comparison_pointers_are_found_by_name() {
    let program = CompiledProgram::new();
    let refusal = |desc: &LoopDescriptor| {
        let mut state = pair_machine();
        apply_read_only_with_commit(desc, &program, &mut state, &[], CommitMode::Full)
    };
    let mut desc = pair_comparison();
    desc.pointers = vec![pointer("--BP"), pointer("--SI")];
    assert_eq!(
        refusal(&desc),
        ApplyOutcome::Unsupported("comparison dst pointer not in descriptor.pointers")
    );
    desc.pointers = vec![pointer("--DI"), pointer("--BP")];
    assert_eq!(
        refusal(&desc),
        ApplyOutcome::Unsupported("comparison src pointer not in descriptor.pointers")
    );
    desc = pair_comparison();
    if let Some(shape) = &mut desc.comparison_shape {
        shape.dst_ptr_property = "--SI".to_string();
    }
    assert_eq!(
        refusal(&desc),
        ApplyOutcome::Unsupported("comparison dst and src pointer names match")
    );
}

#[test]
fn copies_into_extended_memory_read_back() {
    let desc = descriptor(BulkClass::Copy);
    let program = CompiledProgram::new();
    let mut state = machine(&[
        ("CX", 3),
        ("DI", 0),
        ("SI", 0x40),
        ("ES", 0xF000),
        ("DS", 0),
        ("flags", 0),
    ]);
    state.memory[0x40] = 1;
    state.memory[0x41] = 2;
    state.memory[0x42] = 3;
    assert_eq!(
        apply_copy(&desc, &program, &mut state, &[]),
        ApplyOutcome::Applied { iterations: 3 }
    );
    assert_eq!(state.read_mem(0xF0000), 1);
    assert_eq!(state.read_mem(0xF0001), 2);
    assert_eq!(state.read_mem(0xF0002), 3);
}

#[test]
fn subtraction_flags() {
    assert_eq!(compute_sub_flags(5, 5, false, 0), 0x44);
    assert_eq!(compute_sub_flags(0, 1, false, 0), 0x001 | 0x004 | 0x010 | 0x080);
    assert_eq!(compute_sub_flags(0x80, 1, false, 0), 0x010 | 0x800);
    assert_eq!(compute_sub_flags(0x8000, 1, true, 0), 0x004 | 0x010 | 0x800);
    assert_eq!(compute_sub_flags(2, 1, false, 0x7FFF) & 0x400, 0x400);
    assert_eq!(compute_sub_flags(0x105, 5, false, 0), 0x44);
}

#[test]
fn tests_of_properties_at_run_time() {
    let program = CompiledProgram::new();
    let state = machine(&[("a", 1), ("b", 2)]);
    let yes = test_of("--a", 1.0);
    let no = test_of("--b", 1.0);
    let check = |t: &StyleTest| evaluate_style_test_runtime(t, &program, &state, &[]);
    assert!(check(&yes));
    assert!(!check(&no));
    assert!(check(&StyleTest::Or(vec![no.clone(), yes.clone()])));
    assert!(!check(&StyleTest::And(vec![yes.clone(), no.clone()])));
    let holds = |t: StyleTest| {
        evaluate_precondition(&Precondition::NoOverrides(vec![t]), &program, &state, &[])
    };
    assert!(holds(no));
    assert!(!holds(yes));
}

#[test]
fn windows_are_left_to_the_machine() {
    let desc = descriptor(BulkClass::Fill);
    let program = CompiledProgram::new();
    let mut state = machine(&[("CX", 3), ("DI", 0x20), ("ES", 0), ("AL", 9), ("flags", 0)]);
    state.windowed_byte_array = Some(WindowedByteArray {
        window_base: 0x22,
        window_end: 0x30,
        key_cell_slot: 0,
        stride: 1,
        byte_array_base_key: 0,
        byte_array: Arc::new(Vec::new()),
    });
    let outcome = apply_fill(&desc, &program, &mut state, &[]);
    assert!(matches!(outcome, ApplyOutcome::PerIterFallback(_)));
    assert_eq!(state.memory[0x20], 0);
}

#[test]
fn names_do_not_matter_to_a_fill() {
    let mut desc = descriptor(BulkClass::Fill);
    let program = CompiledProgram::new();
    let mut state = machine(&[("CX", 3), ("DI", 0x20), ("ES", 0), ("AL", 9), ("flags", 0)]);
    apply_fill(&desc, &program, &mut state, &[]);
    desc.counter.as_mut().unwrap().property = "--n".to_string();
    desc.pointers[0].self_property = "--p".to_string();
    desc.pointers[0].flag_property = "--f".to_string();
    desc.writes[0].addr_decomposition = Some(("--s".to_string(), "--p".to_string()));
    desc.writes[0].val_expr = Expr::Var { name: "--b".to_string(), fallback: None };
    let mut other = machine(&[("n", 3), ("p", 0x20), ("s", 0), ("b", 9), ("f", 0)]);
    apply_fill(&desc, &program, &mut other, &[]);
    assert_eq!(state.memory, other.memory);
    assert_eq!(&other.memory[0x20..0x24], &[9, 9, 9, 0]);
}

#[test]
fn registers_need_the_extra_advance() {
    let desc = descriptor(BulkClass::Fill);
    let program = CompiledProgram::new();
    let values = [("CX", 3), ("DI", 4), ("ES", 0), ("AL", 7), ("flags", 0), ("IP", 9)];
    let mut state = machine(&values);
    let refused =
        apply_fill_with_commit(&desc, &program, &mut state, &[], CommitMode::Full);
    assert_eq!(refused, ApplyOutcome::Unsupported("ip_extra_advance_slot unresolved"));
    assert_eq!(state.memory[4], 0);
    assert_eq!(state.get_var("CX"), Some(3));
    let applied =
        apply_fill_with_commit(&desc, &program, &mut state, &[], CommitMode::MemoryOnly);
    assert_eq!(applied, ApplyOutcome::Applied { iterations: 3 });
    assert_eq!(state.memory[4], 7);
}
