//! Bulk application of recognised loops.

use calcite_core::pattern::loop_descriptor::{
    evaluate_loop_predicate, BulkClass, ComparisonShape, ComparisonSource, CounterEntry,
    CycleCharge, IndirectRead, LoopDescriptor, PointerEntry, Precondition, WriteEntry,
};
use calcite_core::number::Number;
use calcite_core::pattern::rep_applier::{
    apply_copy, apply_copy_with_commit, apply_fill, apply_fill_with_commit, apply_read_only,
    apply_read_only_with_commit, ApplyOutcome, CommitMode,
};
use calcite_core::program::CompiledProgram;
use calcite_core::state::State;
use calcite_core::types::{CalcOp, CssValue, Expr, PropertyDef, PropertySyntax, StyleTest};


fn lit(v: f64) -> Expr {
    Expr::Literal(Number::from_bits(v.to_bits()))
}


fn empty_program_with_descriptor(desc: LoopDescriptor) -> CompiledProgram {
    let mut program = CompiledProgram::new();
    program.loop_descriptors.push(desc);
    program
}


fn rigged_state(names: &[&str]) -> State {
    let mut state = State::new(1 << 20);
    let props: Vec<PropertyDef> = names
        .iter()
        .map(|n| PropertyDef {
            name: format!("--{}", n),
            syntax: PropertySyntax::Integer,
            inherits: false,
            initial_value: Some(CssValue::Integer(0)),
        })
        .collect();
    state.load_properties(&props);
    state
}

fn stosb_descriptor() -> LoopDescriptor {
    LoopDescriptor {
        key_property: "--opcode".to_string(),
        key_value: 0xAA,
        ip_property: "--IP".to_string(),
        ip_self_property: "--IP_prev".to_string(),
        ip_advance_literal: 1,
        predicate_properties: vec!["--repContinue".to_string()],
        predicate: StyleTest::Single {
            property: "--repContinue".to_string(),
            value: lit(1.0),
        },
        predicate_means_stay: true,
        counter: Some(CounterEntry {
            property: "--CX".to_string(),
            self_property: "--CX_prev".to_string(),
            step: 1,
        }),
        pointers: vec![PointerEntry {
            property: "--DI".to_string(),
            self_property: "--DI".to_string(),
            base_step: 1,
            flag_property: "--flags".to_string(),
            flag_bit: 10,
        }],
        writes: vec![WriteEntry {
            addr_property: "--mAddr0".to_string(),
            val_property: "--mVal0".to_string(),
            addr_expr: lit(0.0),
            val_expr: Expr::Var {
                name: "--AL".to_string(),
                fallback: None,
            },
            addr_decomposition: Some(("--ES".to_string(), "--DI".to_string())),
            val_indirect_read: None,
        }],
        flag_conditioned: false,
        bulk_class: BulkClass::Fill,
        per_iter_cycles: Some(CycleCharge { property: "--cycleCount".to_string(), per_iter: 10 }),
        ip_extra_advance_slot: Some("--prefixLen".to_string()),
        comparison_shape: None,
        precondition: None,
    }
}

#[test]
fn loop_predicate_gates_fast_forward() {
    let program = empty_program_with_descriptor(stosb_descriptor());
    let desc = &program.loop_descriptors[0];
    let mut state = rigged_state(&["repContinue"]);
    state.set_var("repContinue", 0);
    assert!(
        !evaluate_loop_predicate(desc, &program, &state, &[]),
        "predicate false (advance branch taken) must gate the fast-forward off",
    );
    state.set_var("repContinue", 1);
    assert!(
        evaluate_loop_predicate(desc, &program, &state, &[]),
        "predicate true (stay branch taken) must let the fast-forward run",
    );
    let mut inverted = stosb_descriptor();
    inverted.predicate_means_stay = false;
    let program2 = empty_program_with_descriptor(inverted);
    let desc2 = &program2.loop_descriptors[0];
    state.set_var("repContinue", 1);
    assert!(!evaluate_loop_predicate(desc2, &program2, &state, &[]));
    state.set_var("repContinue", 0);
    assert!(evaluate_loop_predicate(desc2, &program2, &state, &[]));
}

fn stosw_descriptor() -> LoopDescriptor {
    LoopDescriptor {
        key_property: "--opcode".to_string(),
        key_value: 0xAB,
        ip_property: "--IP".to_string(),
        ip_self_property: "--IP_prev".to_string(),
        ip_advance_literal: 1,
        predicate_properties: vec!["--repContinue".to_string()],
        predicate: StyleTest::Single {
            property: "--repContinue".to_string(),
            value: lit(1.0),
        },
        predicate_means_stay: true,
        counter: Some(CounterEntry {
            property: "--CX".to_string(),
            self_property: "--CX_prev".to_string(),
            step: 1,
        }),
        pointers: vec![PointerEntry {
            property: "--DI".to_string(),
            self_property: "--DI".to_string(),
            base_step: 2,
            flag_property: "--flags".to_string(),
            flag_bit: 10,
        }],
        writes: vec![
            WriteEntry {
                addr_property: "--mAddr0".to_string(),
                val_property: "--mVal0".to_string(),
                addr_expr: lit(0.0),
                val_expr: Expr::Var {
                    name: "--AL".to_string(),
                    fallback: None,
                },
                addr_decomposition: Some(("--ES".to_string(), "--DI".to_string())),
                val_indirect_read: None,
            },
            WriteEntry {
                addr_property: "--mAddr1".to_string(),
                val_property: "--mVal1".to_string(),
                addr_expr: lit(0.0),
                val_expr: Expr::Var {
                    name: "--AH".to_string(),
                    fallback: None,
                },
                addr_decomposition: Some(("--ES".to_string(), "--DI".to_string())),
                val_indirect_read: None,
            },
        ],
        flag_conditioned: false,
        bulk_class: BulkClass::Fill,
        per_iter_cycles: Some(CycleCharge { property: "--cycleCount".to_string(), per_iter: 10 }),
        ip_extra_advance_slot: Some("--prefixLen".to_string()),
        comparison_shape: None,
        precondition: None,
    }
}

#[test]
fn fill_byte_forward_writes_n_copies() {
    let desc = stosb_descriptor();
    let prog = empty_program_with_descriptor(desc.clone());
    let mut state = rigged_state(&["CX", "DI", "ES", "AL", "flags"]);
    state.set_var("CX", 64);
    state.set_var("DI", 0x10);
    state.set_var("ES", 0xA000);
    state.set_var("AL", 0x42);
    state.set_var("flags", 0); // DF=0
    let outcome = apply_fill(&desc, &prog, &mut state, &[]);
    assert_eq!(outcome, ApplyOutcome::Applied { iterations: 64 });
    for i in 0..64 {
        assert_eq!(
            state.memory[0xA0010 + i],
            0x42,
            "byte {} should be 0x42",
            i
        );
    }
    assert_eq!(state.memory[0xA000F], 0);
    assert_eq!(state.memory[0xA0050], 0);
}

#[test]
fn fill_byte_reverse_writes_lower_addresses() {
    let desc = stosb_descriptor();
    let prog = empty_program_with_descriptor(desc.clone());
    let mut state = rigged_state(&["CX", "DI", "ES", "AL", "flags"]);
    state.set_var("CX", 16);
    state.set_var("DI", 0x20);
    state.set_var("ES", 0xA000);
    state.set_var("AL", 0xAA);
    state.set_var("flags", 1 << 10); // DF=1
    let outcome = apply_fill(&desc, &prog, &mut state, &[]);
    assert_eq!(outcome, ApplyOutcome::Applied { iterations: 16 });
    for i in 0x11..=0x20 {
        assert_eq!(
            state.memory[0xA0000 + i],
            0xAA,
            "byte {:#x} should be 0xAA",
            i
        );
    }
    assert_eq!(state.memory[0xA0010], 0);
    assert_eq!(state.memory[0xA0021], 0);
}

#[test]
fn fill_word_forward_writes_low_then_high() {
    let desc = stosw_descriptor();
    let prog = empty_program_with_descriptor(desc.clone());
    let mut state = rigged_state(&["CX", "DI", "ES", "AL", "AH", "flags"]);
    state.set_var("CX", 4);
    state.set_var("DI", 0);
    state.set_var("ES", 0xA000);
    state.set_var("AL", 0xEF);
    state.set_var("AH", 0xBE);
    state.set_var("flags", 0);
    let outcome = apply_fill(&desc, &prog, &mut state, &[]);
    assert_eq!(outcome, ApplyOutcome::Applied { iterations: 4 });
    let want: [u8; 8] = [0xEF, 0xBE, 0xEF, 0xBE, 0xEF, 0xBE, 0xEF, 0xBE];
    for (i, b) in want.iter().enumerate() {
        assert_eq!(state.memory[0xA0000 + i], *b, "word-fill byte {}", i);
    }
    assert_eq!(state.memory[0xA0008], 0);
}

#[test]
fn fill_word_reverse_walks_backward() {
    let desc = stosw_descriptor();
    let prog = empty_program_with_descriptor(desc.clone());
    let mut state = rigged_state(&["CX", "DI", "ES", "AL", "AH", "flags"]);
    state.set_var("CX", 3);
    state.set_var("DI", 0x10);
    state.set_var("ES", 0xA000);
    state.set_var("AL", 0x34);
    state.set_var("AH", 0x12);
    state.set_var("flags", 1 << 10); // DF=1
    let outcome = apply_fill(&desc, &prog, &mut state, &[]);
    assert_eq!(outcome, ApplyOutcome::Applied { iterations: 3 });
    for &(addr_off, want) in &[
        (0x10usize, 0x34u8), (0x11, 0x12),
        (0x0E, 0x34), (0x0F, 0x12),
        (0x0C, 0x34), (0x0D, 0x12),
    ] {
        assert_eq!(
            state.memory[0xA0000 + addr_off],
            want,
            "addr {:#x}",
            addr_off
        );
    }
    assert_eq!(state.memory[0xA000B], 0);
    assert_eq!(state.memory[0xA0012], 0);
}

#[test]
fn fill_with_zero_counter_is_noop() {
    let desc = stosb_descriptor();
    let prog = empty_program_with_descriptor(desc.clone());
    let mut state = rigged_state(&["CX", "DI", "ES", "AL", "flags"]);
    state.set_var("CX", 0);
    state.set_var("DI", 0x100);
    state.set_var("ES", 0x1000);
    state.set_var("AL", 0x55);
    state.set_var("flags", 0);
    state.memory[0x10100] = 0x77;
    let outcome = apply_fill(&desc, &prog, &mut state, &[]);
    assert_eq!(outcome, ApplyOutcome::Applied { iterations: 0 });
    assert_eq!(state.memory[0x10100], 0x77, "memory must be untouched");
}

#[test]
fn fill_with_negative_counter_is_noop() {
    let desc = stosb_descriptor();
    let prog = empty_program_with_descriptor(desc.clone());
    let mut state = rigged_state(&["CX", "DI", "ES", "AL", "flags"]);
    state.set_var("CX", -1);
    state.set_var("DI", 0x100);
    state.set_var("ES", 0x1000);
    state.set_var("AL", 0x55);
    state.set_var("flags", 0);
    let outcome = apply_fill(&desc, &prog, &mut state, &[]);
    assert_eq!(outcome, ApplyOutcome::Applied { iterations: 0 });
}

#[test]
fn refuses_non_fill_class() {
    let mut desc = stosb_descriptor();
    desc.bulk_class = BulkClass::Copy;
    let prog = empty_program_with_descriptor(desc.clone());
    let mut state = rigged_state(&["CX", "DI", "ES", "AL", "flags"]);
    state.set_var("CX", 1);
    let outcome = apply_fill(&desc, &prog, &mut state, &[]);
    assert!(matches!(outcome, ApplyOutcome::Unsupported(_)));
}

#[test]
fn refuses_when_addr_decomposition_missing() {
    let mut desc = stosb_descriptor();
    desc.writes[0].addr_decomposition = None;
    let prog = empty_program_with_descriptor(desc.clone());
    let mut state = rigged_state(&["CX", "DI", "ES", "AL", "flags"]);
    state.set_var("CX", 4);
    state.set_var("DI", 0);
    state.set_var("ES", 0x1000);
    state.set_var("AL", 0x55);
    let outcome = apply_fill(&desc, &prog, &mut state, &[]);
    assert!(matches!(outcome, ApplyOutcome::Unsupported(_)));
}

#[test]
fn refuses_when_val_expr_is_not_bare_var() {
    let mut desc = stosb_descriptor();
    desc.writes[0].val_expr = Expr::Calc(CalcOp::Add(
        Box::new(Expr::Var { name: "--AL".to_string(), fallback: None }),
        Box::new(lit(0.0)),
    ));
    let prog = empty_program_with_descriptor(desc.clone());
    let mut state = rigged_state(&["CX", "DI", "ES", "AL", "flags"]);
    state.set_var("CX", 4);
    state.set_var("DI", 0);
    state.set_var("ES", 0x1000);
    state.set_var("AL", 0x55);
    let outcome = apply_fill(&desc, &prog, &mut state, &[]);
    assert!(matches!(outcome, ApplyOutcome::Unsupported(_)));
}

#[test]
fn refuses_when_pointer_would_wrap() {
    let desc = stosb_descriptor();
    let prog = empty_program_with_descriptor(desc.clone());
    let mut state = rigged_state(&["CX", "DI", "ES", "AL", "flags"]);
    state.set_var("CX", 0x100);
    state.set_var("DI", 0xFF80); // n=256 from DI=0xFF80 wraps past 0xFFFF
    state.set_var("ES", 0xA000);
    state.set_var("AL", 0x42);
    let outcome = apply_fill(&desc, &prog, &mut state, &[]);
    assert!(matches!(outcome, ApplyOutcome::Unsupported(_)));
}

#[test]
fn write_order_determines_byte_order_in_iteration() {
    let mut desc = stosw_descriptor();
    desc.writes.swap(0, 1);
    let prog = empty_program_with_descriptor(desc.clone());
    let mut state = rigged_state(&["CX", "DI", "ES", "AL", "AH", "flags"]);
    state.set_var("CX", 1);
    state.set_var("DI", 0);
    state.set_var("ES", 0xA000);
    state.set_var("AL", 0xEF);
    state.set_var("AH", 0xBE);
    state.set_var("flags", 0);
    let outcome = apply_fill(&desc, &prog, &mut state, &[]);
    assert_eq!(outcome, ApplyOutcome::Applied { iterations: 1 });
    assert_eq!(state.memory[0xA0000], 0xBE);
    assert_eq!(state.memory[0xA0001], 0xEF);
}

#[test]
fn genericity_unrelated_names_same_shape_same_output() {
    let desc = LoopDescriptor {
        key_property: "--opaque_key".to_string(),
        key_value: 0x77, // arbitrary
        ip_property: "--ip_x".to_string(),
        ip_self_property: "--ip_x_prev".to_string(),
        ip_advance_literal: 1,
        predicate_properties: vec!["--cont_x".to_string()],
        predicate: StyleTest::Single {
            property: "--cont_x".to_string(),
            value: lit(1.0),
        },
        predicate_means_stay: true,
        counter: Some(CounterEntry {
            property: "--alpha".to_string(),
            self_property: "--alpha_prev".to_string(),
            step: 1,
        }),
        pointers: vec![PointerEntry {
            property: "--beta".to_string(),
            self_property: "--beta".to_string(),
            base_step: 1,
            flag_property: "--gamma".to_string(),
            flag_bit: 3, // arbitrary bit
        }],
        writes: vec![WriteEntry {
            addr_property: "--w_addr".to_string(),
            val_property: "--w_val".to_string(),
            addr_expr: lit(0.0),
            val_expr: Expr::Var {
                name: "--delta".to_string(),
                fallback: None,
            },
            addr_decomposition: Some(("--epsilon".to_string(), "--beta".to_string())),
            val_indirect_read: None,
        }],
        flag_conditioned: false,
        bulk_class: BulkClass::Fill,
        per_iter_cycles: Some(CycleCharge { property: "--cycle_x".to_string(), per_iter: 10 }),
        ip_extra_advance_slot: Some("--prefixLen".to_string()),
        comparison_shape: None,
        precondition: None,
    };
    let prog = empty_program_with_descriptor(desc.clone());
    let mut state = rigged_state(&["alpha", "beta", "epsilon", "delta", "gamma"]);
    state.set_var("alpha", 8);
    state.set_var("beta", 0x40);
    state.set_var("epsilon", 0x1234);
    state.set_var("delta", 0x99);
    state.set_var("gamma", 0); // bit 3 clear → forward
    let outcome = apply_fill(&desc, &prog, &mut state, &[]);
    assert_eq!(outcome, ApplyOutcome::Applied { iterations: 8 });
    let base = (0x1234usize) * 16 + 0x40;
    for i in 0..8 {
        assert_eq!(state.memory[base + i], 0x99, "byte {}", i);
    }
    assert_eq!(state.memory[base + 8], 0);
}

#[test]
fn indirect_read_type_referenced() {
    let _: Option<IndirectRead> = None;
}

#[test]
fn equivalence_byte_fill_matches_direct_bulk_fill() {
    let desc = stosb_descriptor();
    let prog = empty_program_with_descriptor(desc.clone());
    let names = &["CX", "DI", "ES", "AL", "flags"];
    let mut state_a = rigged_state(names);
    let mut state_b = rigged_state(names);
    for s in [&mut state_a, &mut state_b] {
        s.set_var("CX", 200);
        s.set_var("DI", 0x80);
        s.set_var("ES", 0x1234);
        s.set_var("AL", 0x5A);
        s.set_var("flags", 0);
    }
    let outcome = apply_fill(&desc, &prog, &mut state_a, &[]);
    assert_eq!(outcome, ApplyOutcome::Applied { iterations: 200 });
    let es = 0x1234i64;
    let di = 0x80i64;
    let n = 200usize;
    state_b.bulk_fill(es * 16 + di, n as u64, 0x5A);
    assert_eq!(
        state_a.memory, state_b.memory,
        "applier and direct-bulk_fill should produce identical memory"
    );
}

#[test]
fn equivalence_word_fill_matches_direct_per_byte_writes() {
    let desc = stosw_descriptor();
    let prog = empty_program_with_descriptor(desc.clone());
    let names = &["CX", "DI", "ES", "AL", "AH", "flags"];
    let mut state_a = rigged_state(names);
    let mut state_b = rigged_state(names);
    for s in [&mut state_a, &mut state_b] {
        s.set_var("CX", 100);
        s.set_var("DI", 0x300);
        s.set_var("ES", 0xB000);
        s.set_var("AL", 0xFE);
        s.set_var("AH", 0xCA);
        s.set_var("flags", 1 << 10); // DF=1
    }
    let outcome = apply_fill(&desc, &prog, &mut state_a, &[]);
    assert_eq!(outcome, ApplyOutcome::Applied { iterations: 100 });
    let es = 0xB000i64;
    let di = 0x300i64;
    let lo = 0xFEu8;
    let hi = 0xCAu8;
    let n = 100i64;
    for k in 0..n {
        let off = -k * 2; // DF=1
        let base = es * 16 + di + off;
        state_b.bulk_store_byte(base, lo);
        state_b.bulk_store_byte(base + 1, hi);
    }
    assert_eq!(
        state_a.memory, state_b.memory,
        "applier word-fill must match direct per-byte writes byte-for-byte"
    );
}

fn movsb_descriptor() -> LoopDescriptor {
    LoopDescriptor {
        key_property: "--opcode".to_string(),
        key_value: 0xA4,
        ip_property: "--IP".to_string(),
        ip_self_property: "--IP_prev".to_string(),
        ip_advance_literal: 1,
        predicate_properties: vec!["--repContinue".to_string()],
        predicate: StyleTest::Single {
            property: "--repContinue".to_string(),
            value: lit(1.0),
        },
        predicate_means_stay: true,
        counter: Some(CounterEntry {
            property: "--CX".to_string(),
            self_property: "--CX_prev".to_string(),
            step: 1,
        }),
        pointers: vec![
            PointerEntry {
                property: "--DI".to_string(),
                self_property: "--DI".to_string(),
                base_step: 1,
                flag_property: "--flags".to_string(),
                flag_bit: 10,
            },
            PointerEntry {
                property: "--SI".to_string(),
                self_property: "--SI".to_string(),
                base_step: 1,
                flag_property: "--flags".to_string(),
                flag_bit: 10,
            },
        ],
        writes: vec![WriteEntry {
            addr_property: "--mAddr0".to_string(),
            val_property: "--mVal0".to_string(),
            addr_expr: lit(0.0),
            val_expr: Expr::Var {
                name: "--_strSrcByte".to_string(),
                fallback: None,
            },
            addr_decomposition: Some(("--ES".to_string(), "--DI".to_string())),
            val_indirect_read: Some(IndirectRead {
                seg_property: Some("--DS".to_string()),
                seg_times_sixteen: true,
                pointer_property: "--SI".to_string(),
                intermediate_property: "--_strSrcByte".to_string(),
            }),
        }],
        flag_conditioned: false,
        bulk_class: BulkClass::Copy,
        per_iter_cycles: Some(CycleCharge { property: "--cycleCount".to_string(), per_iter: 17 }),
        ip_extra_advance_slot: Some("--prefixLen".to_string()),
        comparison_shape: None,
        precondition: None,
    }
}

#[test]
fn apply_copy_flat_base_adds_unscaled() {
    let mut desc = movsb_descriptor();
    {
        let ir = desc.writes[0].val_indirect_read.as_mut().unwrap();
        ir.seg_property = Some("--srcBase".to_string());
        ir.seg_times_sixteen = false;
    }
    let program = empty_program_with_descriptor(desc);
    let mut state = rigged_state(&[
        "CX", "DI", "SI", "ES", "srcBase", "flags", "IP", "cycleCount", "prefixLen",
    ]);
    state.set_var("CX", 4);
    state.set_var("DI", 0x10);
    state.set_var("SI", 0x20);
    state.set_var("ES", 0x100); // dst linear base 0x1000
    state.set_var("srcBase", 0x2000); // FLAT base — already scaled
    state.set_var("flags", 0);
    for i in 0..4 {
        state.write_mem(0x2000 + 0x20 + i, 0xA0 + i);
    }
    let outcome = apply_copy_with_commit(
        &program.loop_descriptors[0],
        &program,
        &mut state,
        &[],
        CommitMode::MemoryOnly,
    );
    assert_eq!(outcome, ApplyOutcome::Applied { iterations: 4 });
    for i in 0..4 {
        assert_eq!(
            state.read_mem(0x1000 + 0x10 + i) & 0xFF,
            0xA0 + i,
            "byte {} must be copied from the unscaled flat base",
            i,
        );
    }
}

fn movsw_descriptor() -> LoopDescriptor {
    LoopDescriptor {
        key_property: "--opcode".to_string(),
        key_value: 0xA5,
        ip_property: "--IP".to_string(),
        ip_self_property: "--IP_prev".to_string(),
        ip_advance_literal: 1,
        predicate_properties: vec!["--repContinue".to_string()],
        predicate: StyleTest::Single {
            property: "--repContinue".to_string(),
            value: lit(1.0),
        },
        predicate_means_stay: true,
        counter: Some(CounterEntry {
            property: "--CX".to_string(),
            self_property: "--CX_prev".to_string(),
            step: 1,
        }),
        pointers: vec![
            PointerEntry {
                property: "--DI".to_string(),
                self_property: "--DI".to_string(),
                base_step: 2,
                flag_property: "--flags".to_string(),
                flag_bit: 10,
            },
            PointerEntry {
                property: "--SI".to_string(),
                self_property: "--SI".to_string(),
                base_step: 2,
                flag_property: "--flags".to_string(),
                flag_bit: 10,
            },
        ],
        writes: vec![
            WriteEntry {
                addr_property: "--mAddr0".to_string(),
                val_property: "--mVal0".to_string(),
                addr_expr: lit(0.0),
                val_expr: Expr::Var {
                    name: "--_strSrcByteLo".to_string(),
                    fallback: None,
                },
                addr_decomposition: Some(("--ES".to_string(), "--DI".to_string())),
                val_indirect_read: Some(IndirectRead {
                    seg_property: Some("--DS".to_string()),
                    seg_times_sixteen: true,
                    pointer_property: "--SI".to_string(),
                    intermediate_property: "--_strSrcByteLo".to_string(),
                }),
            },
            WriteEntry {
                addr_property: "--mAddr1".to_string(),
                val_property: "--mVal1".to_string(),
                addr_expr: lit(0.0),
                val_expr: Expr::Var {
                    name: "--_strSrcByteHi".to_string(),
                    fallback: None,
                },
                addr_decomposition: Some(("--ES".to_string(), "--DI".to_string())),
                val_indirect_read: Some(IndirectRead {
                    seg_property: Some("--DS".to_string()),
                    seg_times_sixteen: true,
                    pointer_property: "--SI".to_string(),
                    intermediate_property: "--_strSrcByteHi".to_string(),
                }),
            },
        ],
        flag_conditioned: false,
        bulk_class: BulkClass::Copy,
        per_iter_cycles: Some(CycleCharge { property: "--cycleCount".to_string(), per_iter: 17 }),
        ip_extra_advance_slot: Some("--prefixLen".to_string()),
        comparison_shape: None,
        precondition: None,
    }
}

fn seed_bytes(state: &mut State, base_linear: usize, bytes: &[u8]) {
    for (i, &b) in bytes.iter().enumerate() {
        state.memory[base_linear + i] = b;
    }
}

#[test]
fn copy_byte_forward() {
    let desc = movsb_descriptor();
    let prog = empty_program_with_descriptor(desc.clone());
    let mut state = rigged_state(&["CX", "DI", "SI", "ES", "DS", "flags"]);
    state.set_var("CX", 8);
    state.set_var("DI", 0x80);
    state.set_var("SI", 0x40);
    state.set_var("ES", 0x2000);
    state.set_var("DS", 0x1000);
    state.set_var("flags", 0); // DF=0
    let src_base = 0x1000 * 16 + 0x40;
    let dst_base = 0x2000 * 16 + 0x80;
    seed_bytes(&mut state, src_base, &[0x11, 0x22, 0x33, 0x44, 0x55, 0x66, 0x77, 0x88]);
    let outcome = apply_copy(&desc, &prog, &mut state, &[]);
    assert_eq!(outcome, ApplyOutcome::Applied { iterations: 8 });
    for (i, &b) in [0x11, 0x22, 0x33, 0x44, 0x55, 0x66, 0x77, 0x88].iter().enumerate() {
        assert_eq!(state.memory[dst_base + i], b, "dst byte {}", i);
    }
    assert_eq!(state.memory[src_base], 0x11);
    assert_eq!(state.memory[src_base + 7], 0x88);
    assert_eq!(state.memory[dst_base + 8], 0);
}

#[test]
fn copy_byte_reverse() {
    let desc = movsb_descriptor();
    let prog = empty_program_with_descriptor(desc.clone());
    let mut state = rigged_state(&["CX", "DI", "SI", "ES", "DS", "flags"]);
    state.set_var("CX", 8);
    state.set_var("DI", 0x87);
    state.set_var("SI", 0x47);
    state.set_var("ES", 0x2000);
    state.set_var("DS", 0x1000);
    state.set_var("flags", 1 << 10); // DF=1
    let src_base = 0x1000 * 16 + 0x40;
    let dst_base = 0x2000 * 16 + 0x80;
    seed_bytes(&mut state, src_base, &[0xAA, 0xBB, 0xCC, 0xDD, 0xEE, 0xFF, 0x10, 0x20]);
    let outcome = apply_copy(&desc, &prog, &mut state, &[]);
    assert_eq!(outcome, ApplyOutcome::Applied { iterations: 8 });
    for (i, &b) in [0xAA, 0xBB, 0xCC, 0xDD, 0xEE, 0xFF, 0x10, 0x20].iter().enumerate() {
        assert_eq!(state.memory[dst_base + i], b, "dst byte {}", i);
    }
}

#[test]
fn copy_word_forward() {
    let desc = movsw_descriptor();
    let prog = empty_program_with_descriptor(desc.clone());
    let mut state = rigged_state(&["CX", "DI", "SI", "ES", "DS", "flags"]);
    state.set_var("CX", 4);
    state.set_var("DI", 0x100);
    state.set_var("SI", 0x80);
    state.set_var("ES", 0x3000);
    state.set_var("DS", 0x1000);
    state.set_var("flags", 0);
    let src_base = 0x1000 * 16 + 0x80;
    let dst_base = 0x3000 * 16 + 0x100;
    seed_bytes(
        &mut state,
        src_base,
        &[0xCE, 0xFA, 0xEF, 0xBE, 0x0D, 0xF0, 0xAD, 0xDE],
    );
    let outcome = apply_copy(&desc, &prog, &mut state, &[]);
    assert_eq!(outcome, ApplyOutcome::Applied { iterations: 4 });
    for (i, &b) in [0xCE, 0xFA, 0xEF, 0xBE, 0x0D, 0xF0, 0xAD, 0xDE].iter().enumerate() {
        assert_eq!(state.memory[dst_base + i], b, "dst byte {}", i);
    }
    assert_eq!(state.memory[dst_base + 8], 0);
}

#[test]
fn copy_word_reverse() {
    let desc = movsw_descriptor();
    let prog = empty_program_with_descriptor(desc.clone());
    let mut state = rigged_state(&["CX", "DI", "SI", "ES", "DS", "flags"]);
    state.set_var("CX", 3);
    state.set_var("DI", 0x110);
    state.set_var("SI", 0x90);
    state.set_var("ES", 0x3000);
    state.set_var("DS", 0x1000);
    state.set_var("flags", 1 << 10); // DF=1
    let src_base = 0x1000 * 16;
    let dst_base = 0x3000 * 16;
    seed_bytes(&mut state, src_base + 0x8C, &[0x10, 0x11, 0x12, 0x13, 0x14, 0x15]);
    let outcome = apply_copy(&desc, &prog, &mut state, &[]);
    assert_eq!(outcome, ApplyOutcome::Applied { iterations: 3 });
    let want: &[(usize, u8)] = &[
        (0x110, 0x14), (0x111, 0x15),
        (0x10E, 0x12), (0x10F, 0x13),
        (0x10C, 0x10), (0x10D, 0x11),
    ];
    for &(off, b) in want {
        assert_eq!(state.memory[dst_base + off], b, "addr {:#x}", off);
    }
    assert_eq!(state.memory[dst_base + 0x10B], 0);
    assert_eq!(state.memory[dst_base + 0x112], 0);
}

#[test]
fn copy_with_zero_counter_is_noop() {
    let desc = movsb_descriptor();
    let prog = empty_program_with_descriptor(desc.clone());
    let mut state = rigged_state(&["CX", "DI", "SI", "ES", "DS", "flags"]);
    state.set_var("CX", 0);
    state.set_var("DI", 0x80);
    state.set_var("SI", 0x40);
    state.set_var("ES", 0x2000);
    state.set_var("DS", 0x1000);
    state.set_var("flags", 0);
    state.memory[0x1000 * 16 + 0x40] = 0xAB;
    state.memory[0x2000 * 16 + 0x80] = 0xCD; // sentinel, must not be overwritten
    let outcome = apply_copy(&desc, &prog, &mut state, &[]);
    assert_eq!(outcome, ApplyOutcome::Applied { iterations: 0 });
    assert_eq!(state.memory[0x2000 * 16 + 0x80], 0xCD);
}

#[test]
fn copy_overlapping_forward_propagates_first_byte() {
    let desc = movsb_descriptor();
    let prog = empty_program_with_descriptor(desc.clone());
    let mut state = rigged_state(&["CX", "DI", "SI", "ES", "DS", "flags"]);
    state.set_var("CX", 4);
    state.set_var("DI", 0x101);
    state.set_var("SI", 0x100);
    state.set_var("ES", 0x1000);
    state.set_var("DS", 0x1000);
    state.set_var("flags", 0); // DF=0 forward
    let base = 0x1000 * 16;
    seed_bytes(&mut state, base + 0x100, &[0x11, 0x22, 0x33, 0x44]);
    let outcome = apply_copy(&desc, &prog, &mut state, &[]);
    assert_eq!(outcome, ApplyOutcome::Applied { iterations: 4 });
    assert_eq!(state.memory[base + 0x100], 0x11); // src[0] unchanged
    assert_eq!(state.memory[base + 0x101], 0x11);
    assert_eq!(state.memory[base + 0x102], 0x11);
    assert_eq!(state.memory[base + 0x103], 0x11);
    assert_eq!(state.memory[base + 0x104], 0x11);
    assert_eq!(state.memory[base + 0x105], 0); // boundary
}

#[test]
fn copy_refuses_non_copy_class() {
    let mut desc = movsb_descriptor();
    desc.bulk_class = BulkClass::Fill;
    let prog = empty_program_with_descriptor(desc.clone());
    let mut state = rigged_state(&["CX", "DI", "SI", "ES", "DS", "flags"]);
    state.set_var("CX", 1);
    let outcome = apply_copy(&desc, &prog, &mut state, &[]);
    assert!(matches!(outcome, ApplyOutcome::Unsupported(_)));
}

#[test]
fn copy_refuses_when_only_one_pointer() {
    let mut desc = movsb_descriptor();
    desc.pointers.pop();
    let prog = empty_program_with_descriptor(desc.clone());
    let mut state = rigged_state(&["CX", "DI", "SI", "ES", "DS", "flags"]);
    state.set_var("CX", 1);
    let outcome = apply_copy(&desc, &prog, &mut state, &[]);
    assert!(matches!(outcome, ApplyOutcome::Unsupported(_)));
}

#[test]
fn copy_refuses_when_val_indirect_read_missing() {
    let mut desc = movsb_descriptor();
    desc.writes[0].val_indirect_read = None;
    let prog = empty_program_with_descriptor(desc.clone());
    let mut state = rigged_state(&["CX", "DI", "SI", "ES", "DS", "flags"]);
    state.set_var("CX", 1);
    let outcome = apply_copy(&desc, &prog, &mut state, &[]);
    assert!(matches!(outcome, ApplyOutcome::Unsupported(_)));
}

#[test]
fn copy_refuses_when_indirect_read_seg_missing() {
    let mut desc = movsb_descriptor();
    if let Some(ir) = desc.writes[0].val_indirect_read.as_mut() {
        ir.seg_property = None;
    }
    let prog = empty_program_with_descriptor(desc.clone());
    let mut state = rigged_state(&["CX", "DI", "SI", "ES", "DS", "flags"]);
    state.set_var("CX", 1);
    let outcome = apply_copy(&desc, &prog, &mut state, &[]);
    assert!(matches!(outcome, ApplyOutcome::Unsupported(_)));
}

#[test]
fn copy_refuses_when_pointers_have_different_step() {
    let mut desc = movsb_descriptor();
    desc.pointers[1].base_step = 2;
    let prog = empty_program_with_descriptor(desc.clone());
    let mut state = rigged_state(&["CX", "DI", "SI", "ES", "DS", "flags"]);
    state.set_var("CX", 1);
    let outcome = apply_copy(&desc, &prog, &mut state, &[]);
    assert!(matches!(outcome, ApplyOutcome::Unsupported(_)));
}

#[test]
fn copy_genericity_unrelated_names() {
    let desc = LoopDescriptor {
        key_property: "--opaque_key".to_string(),
        key_value: 0xBC, // arbitrary
        ip_property: "--ip_x".to_string(),
        ip_self_property: "--ip_x_prev".to_string(),
        ip_advance_literal: 1,
        predicate_properties: vec!["--cont_x".to_string()],
        predicate: StyleTest::Single {
            property: "--cont_x".to_string(),
            value: lit(1.0),
        },
        predicate_means_stay: true,
        counter: Some(CounterEntry {
            property: "--alpha".to_string(),
            self_property: "--alpha_prev".to_string(),
            step: 1,
        }),
        pointers: vec![
            PointerEntry {
                property: "--beta".to_string(),
                self_property: "--beta".to_string(),
                base_step: 1,
                flag_property: "--gamma".to_string(),
                flag_bit: 5, // arbitrary
            },
            PointerEntry {
                property: "--zeta".to_string(),
                self_property: "--zeta".to_string(),
                base_step: 1,
                flag_property: "--gamma".to_string(),
                flag_bit: 5,
            },
        ],
        writes: vec![WriteEntry {
            addr_property: "--w_addr".to_string(),
            val_property: "--w_val".to_string(),
            addr_expr: lit(0.0),
            val_expr: Expr::Var {
                name: "--theta".to_string(),
                fallback: None,
            },
            addr_decomposition: Some(("--epsilon".to_string(), "--beta".to_string())),
            val_indirect_read: Some(IndirectRead {
                seg_property: Some("--eta".to_string()),
                seg_times_sixteen: true,
                pointer_property: "--zeta".to_string(),
                intermediate_property: "--theta".to_string(),
            }),
        }],
        flag_conditioned: false,
        bulk_class: BulkClass::Copy,
        per_iter_cycles: Some(CycleCharge { property: "--cycle_x".to_string(), per_iter: 17 }),
        ip_extra_advance_slot: Some("--prefixLen".to_string()),
        comparison_shape: None,
        precondition: None,
    };
    let prog = empty_program_with_descriptor(desc.clone());
    let mut state =
        rigged_state(&["alpha", "beta", "zeta", "epsilon", "eta", "gamma", "theta"]);
    state.set_var("alpha", 5);
    state.set_var("beta", 0x10); // dst pointer
    state.set_var("zeta", 0x20); // src pointer
    state.set_var("epsilon", 0x4000); // dst seg
    state.set_var("eta", 0x2000); // src seg
    state.set_var("gamma", 0); // bit 5 clear → forward
    let src_base = 0x2000 * 16 + 0x20;
    let dst_base = 0x4000 * 16 + 0x10;
    seed_bytes(&mut state, src_base, &[0xA1, 0xA2, 0xA3, 0xA4, 0xA5]);
    let outcome = apply_copy(&desc, &prog, &mut state, &[]);
    assert_eq!(outcome, ApplyOutcome::Applied { iterations: 5 });
    for (i, &b) in [0xA1, 0xA2, 0xA3, 0xA4, 0xA5].iter().enumerate() {
        assert_eq!(state.memory[dst_base + i], b);
    }
}

#[test]
fn copy_equivalence_byte_matches_direct_loop() {
    let desc = movsb_descriptor();
    let prog = empty_program_with_descriptor(desc.clone());
    let names = &["CX", "DI", "SI", "ES", "DS", "flags"];
    let mut state_a = rigged_state(names);
    let mut state_b = rigged_state(names);
    let n = 64usize;
    let src_base = 0x1000 * 16 + 0x100;
    for s in [&mut state_a, &mut state_b] {
        s.set_var("CX", n as i32);
        s.set_var("DI", 0x200);
        s.set_var("SI", 0x100);
        s.set_var("ES", 0x4000);
        s.set_var("DS", 0x1000);
        s.set_var("flags", 0);
        for k in 0..n {
            s.memory[src_base + k] = (0x10 + k as u8) ^ 0x5A;
        }
    }
    let outcome = apply_copy(&desc, &prog, &mut state_a, &[]);
    assert_eq!(outcome, ApplyOutcome::Applied { iterations: n as i32 });
    let es_base = 0x4000i64 * 16;
    let ds_base = 0x1000i64 * 16;
    let di = 0x200i64;
    let si = 0x100i64;
    for k in 0..(n as i64) {
        let s_addr = ds_base + si + k;
        let d_addr = es_base + di + k;
        let b = (state_b.read_mem(s_addr as i32) & 0xFF) as u8;
        state_b.bulk_store_byte(d_addr, b);
    }
    assert_eq!(
        state_a.memory, state_b.memory,
        "applier byte-copy must match direct loop byte-for-byte"
    );
}

#[test]
fn copy_equivalence_word_reverse_matches_direct_loop() {
    let desc = movsw_descriptor();
    let prog = empty_program_with_descriptor(desc.clone());
    let names = &["CX", "DI", "SI", "ES", "DS", "flags"];
    let mut state_a = rigged_state(names);
    let mut state_b = rigged_state(names);
    let n = 50i64;
    let src_base = 0x2000 * 16 + 0x500;
    for s in [&mut state_a, &mut state_b] {
        s.set_var("CX", n as i32);
        s.set_var("DI", 0x600); // walks backward from 0x600
        s.set_var("SI", 0x500); // walks backward from 0x500
        s.set_var("ES", 0x5000);
        s.set_var("DS", 0x2000);
        s.set_var("flags", 1 << 10); // DF=1
        for k in 0..(n * 2) {
            let off = 0x500 - (n - 1) * 2 + k;
            s.memory[(src_base as i64 - (n - 1) * 2 + k) as usize] =
                ((off as u8) ^ 0xC3) & 0xFF;
        }
    }
    let outcome = apply_copy(&desc, &prog, &mut state_a, &[]);
    assert_eq!(outcome, ApplyOutcome::Applied { iterations: n as i32 });
    let es_base = 0x5000i64 * 16;
    let ds_base = 0x2000i64 * 16;
    let di = 0x600i64;
    let si = 0x500i64;
    for k in 0..n {
        let off = -k * 2; // DF=1
        let s_addr = ds_base + si + off;
        let d_addr = es_base + di + off;
        let lo = (state_b.read_mem(s_addr as i32) & 0xFF) as u8;
        let hi = (state_b.read_mem((s_addr + 1) as i32) & 0xFF) as u8;
        state_b.bulk_store_byte(d_addr, lo);
        state_b.bulk_store_byte(d_addr + 1, hi);
    }
    assert_eq!(
        state_a.memory, state_b.memory,
        "applier word-copy reverse must match direct loop byte-for-byte"
    );
}

fn lodsb_descriptor() -> LoopDescriptor {
    LoopDescriptor {
        key_property: "--opcode".to_string(),
        key_value: 0xAC,
        ip_property: "--IP".to_string(),
        ip_self_property: "--IP_prev".to_string(),
        ip_advance_literal: 1,
        predicate_properties: vec!["--repContinue".to_string()],
        predicate: StyleTest::Single {
            property: "--repContinue".to_string(),
            value: lit(1.0),
        },
        predicate_means_stay: true,
        counter: Some(CounterEntry {
            property: "--CX".to_string(),
            self_property: "--CX_prev".to_string(),
            step: 1,
        }),
        pointers: vec![PointerEntry {
            property: "--SI".to_string(),
            self_property: "--SI".to_string(),
            base_step: 1,
            flag_property: "--flags".to_string(),
            flag_bit: 10,
        }],
        writes: vec![],
        flag_conditioned: false,
        bulk_class: BulkClass::ReadOnly,
        per_iter_cycles: Some(CycleCharge { property: "--cycleCount".to_string(), per_iter: 15 }),
        ip_extra_advance_slot: Some("--prefixLen".to_string()),
        comparison_shape: None,
        precondition: None,
    }
}

fn cmpsb_descriptor() -> LoopDescriptor {
    LoopDescriptor {
        key_property: "--opcode".to_string(),
        key_value: 0xA6,
        ip_property: "--IP".to_string(),
        ip_self_property: "--IP_prev".to_string(),
        ip_advance_literal: 1,
        predicate_properties: vec!["--repContinue".to_string(), "--repZF".to_string()],
        predicate: StyleTest::Single {
            property: "--repContinue".to_string(),
            value: lit(1.0),
        },
        predicate_means_stay: true,
        counter: Some(CounterEntry {
            property: "--CX".to_string(),
            self_property: "--CX_prev".to_string(),
            step: 1,
        }),
        pointers: vec![
            PointerEntry {
                property: "--DI".to_string(),
                self_property: "--DI".to_string(),
                base_step: 1,
                flag_property: "--flags".to_string(),
                flag_bit: 10,
            },
            PointerEntry {
                property: "--SI".to_string(),
                self_property: "--SI".to_string(),
                base_step: 1,
                flag_property: "--flags".to_string(),
                flag_bit: 10,
            },
        ],
        writes: vec![],
        flag_conditioned: true,
        bulk_class: BulkClass::ReadOnly,
        per_iter_cycles: Some(CycleCharge { property: "--cycleCount".to_string(), per_iter: 22 }),
        ip_extra_advance_slot: Some("--prefixLen".to_string()),
        comparison_shape: Some(ComparisonShape {
            width: 1,
            dst_seg_property: "--ES".to_string(),
            dst_seg_times_sixteen: true,
            dst_ptr_property: "--DI".to_string(),
            source: ComparisonSource::Pointer {
                seg_property: "--DS".to_string(),
                seg_times_sixteen: true,
                ptr_property: "--SI".to_string(),
            },
            rep_type_property: Some("--repType".to_string()),
        }),
        precondition: None,
    }
}

fn cmpsw_descriptor() -> LoopDescriptor {
    let mut d = cmpsb_descriptor();
    d.key_value = 0xA7;
    d.pointers[0].base_step = 2;
    d.pointers[1].base_step = 2;
    if let Some(cs) = d.comparison_shape.as_mut() {
        cs.width = 2;
    }
    d
}

fn scasb_descriptor() -> LoopDescriptor {
    LoopDescriptor {
        key_property: "--opcode".to_string(),
        key_value: 0xAE,
        ip_property: "--IP".to_string(),
        ip_self_property: "--IP_prev".to_string(),
        ip_advance_literal: 1,
        predicate_properties: vec!["--repContinue".to_string(), "--repZF".to_string()],
        predicate: StyleTest::Single {
            property: "--repContinue".to_string(),
            value: lit(1.0),
        },
        predicate_means_stay: true,
        counter: Some(CounterEntry {
            property: "--CX".to_string(),
            self_property: "--CX_prev".to_string(),
            step: 1,
        }),
        pointers: vec![PointerEntry {
            property: "--DI".to_string(),
            self_property: "--DI".to_string(),
            base_step: 1,
            flag_property: "--flags".to_string(),
            flag_bit: 10,
        }],
        writes: vec![],
        flag_conditioned: true,
        bulk_class: BulkClass::ReadOnly,
        per_iter_cycles: Some(CycleCharge { property: "--cycleCount".to_string(), per_iter: 15 }),
        ip_extra_advance_slot: Some("--prefixLen".to_string()),
        comparison_shape: Some(ComparisonShape {
            width: 1,
            dst_seg_property: "--ES".to_string(),
            dst_seg_times_sixteen: true,
            dst_ptr_property: "--DI".to_string(),
            source: ComparisonSource::Accumulator {
                byte_property: "--AL".to_string(),
                word_property: "--AX".to_string(),
            },
            rep_type_property: Some("--repType".to_string()),
        }),
        precondition: None,
    }
}

fn scasw_descriptor() -> LoopDescriptor {
    let mut d = scasb_descriptor();
    d.key_value = 0xAF;
    d.pointers[0].base_step = 2;
    if let Some(cs) = d.comparison_shape.as_mut() {
        cs.width = 2;
    }
    d
}

#[test]
fn read_only_lods_byte_forward() {
    let desc = lodsb_descriptor();
    let prog = empty_program_with_descriptor(desc.clone());
    let mut state = rigged_state(&["CX", "SI", "DS", "flags"]);
    state.set_var("CX", 16);
    state.set_var("SI", 0x100);
    state.set_var("DS", 0x1000);
    state.set_var("flags", 0); // DF=0
    let base = 0x1000 * 16 + 0x100;
    for i in 0..16 {
        state.memory[base + i] = 0x40 + i as u8;
    }
    let memory_before = state.memory.clone();
    let outcome = apply_read_only(&desc, &prog, &mut state, &[]);
    assert_eq!(outcome, ApplyOutcome::Applied { iterations: 16 });
    assert_eq!(state.memory, memory_before, "LODS must not mutate memory");
}

#[test]
fn read_only_lods_byte_reverse() {
    let desc = lodsb_descriptor();
    let prog = empty_program_with_descriptor(desc.clone());
    let mut state = rigged_state(&["CX", "SI", "DS", "flags"]);
    state.set_var("CX", 8);
    state.set_var("SI", 0x80);
    state.set_var("DS", 0x2000);
    state.set_var("flags", 1 << 10); // DF=1
    let memory_before = state.memory.clone();
    let outcome = apply_read_only(&desc, &prog, &mut state, &[]);
    assert_eq!(outcome, ApplyOutcome::Applied { iterations: 8 });
    assert_eq!(state.memory, memory_before);
}

#[test]
fn read_only_lods_zero_counter_is_noop() {
    let desc = lodsb_descriptor();
    let prog = empty_program_with_descriptor(desc.clone());
    let mut state = rigged_state(&["CX", "SI", "DS", "flags"]);
    state.set_var("CX", 0);
    state.set_var("SI", 0x100);
    state.set_var("DS", 0x1000);
    let outcome = apply_read_only(&desc, &prog, &mut state, &[]);
    assert_eq!(outcome, ApplyOutcome::Applied { iterations: 0 });
}

#[test]
fn read_only_cmps_byte_equal_throughout_repe_completes() {
    let desc = cmpsb_descriptor();
    let prog = empty_program_with_descriptor(desc.clone());
    let mut state =
        rigged_state(&["CX", "DI", "SI", "ES", "DS", "AL", "AX", "flags", "repType"]);
    state.set_var("CX", 12);
    state.set_var("DI", 0x200);
    state.set_var("SI", 0x100);
    state.set_var("ES", 0x4000);
    state.set_var("DS", 0x1000);
    state.set_var("flags", 0); // DF=0
    state.set_var("repType", 1); // REPE
    let dst_base = 0x4000 * 16 + 0x200;
    let src_base = 0x1000 * 16 + 0x100;
    for i in 0..12 {
        state.memory[dst_base + i] = 0x55;
        state.memory[src_base + i] = 0x55;
    }
    let memory_before = state.memory.clone();
    let outcome = apply_read_only(&desc, &prog, &mut state, &[]);
    assert_eq!(outcome, ApplyOutcome::Applied { iterations: 12 });
    assert_eq!(state.memory, memory_before, "CMPS must not mutate memory");
}

#[test]
fn read_only_cmps_byte_repe_early_exit_on_mismatch() {
    let desc = cmpsb_descriptor();
    let prog = empty_program_with_descriptor(desc.clone());
    let mut state =
        rigged_state(&["CX", "DI", "SI", "ES", "DS", "AL", "AX", "flags", "repType"]);
    state.set_var("CX", 16);
    state.set_var("DI", 0x300);
    state.set_var("SI", 0x100);
    state.set_var("ES", 0x4000);
    state.set_var("DS", 0x1000);
    state.set_var("flags", 0);
    state.set_var("repType", 1); // REPE
    let dst_base = 0x4000 * 16 + 0x300;
    let src_base = 0x1000 * 16 + 0x100;
    for i in 0..16 {
        state.memory[dst_base + i] = 0xAA;
        state.memory[src_base + i] = 0xAA;
    }
    state.memory[src_base + 5] = 0xBB;
    let outcome = apply_read_only(&desc, &prog, &mut state, &[]);
    assert_eq!(outcome, ApplyOutcome::Applied { iterations: 6 });
}

#[test]
fn read_only_cmps_byte_repne_early_exit_on_match() {
    let desc = cmpsb_descriptor();
    let prog = empty_program_with_descriptor(desc.clone());
    let mut state =
        rigged_state(&["CX", "DI", "SI", "ES", "DS", "AL", "AX", "flags", "repType"]);
    state.set_var("CX", 16);
    state.set_var("DI", 0x400);
    state.set_var("SI", 0x100);
    state.set_var("ES", 0x4000);
    state.set_var("DS", 0x1000);
    state.set_var("flags", 0);
    state.set_var("repType", 2); // REPNE
    let dst_base = 0x4000 * 16 + 0x400;
    let src_base = 0x1000 * 16 + 0x100;
    for i in 0..16 {
        state.memory[dst_base + i] = 0xAA;
        state.memory[src_base + i] = 0xBB;
    }
    state.memory[src_base + 3] = 0xAA;
    let outcome = apply_read_only(&desc, &prog, &mut state, &[]);
    assert_eq!(outcome, ApplyOutcome::Applied { iterations: 4 });
}

#[test]
fn read_only_cmps_word_equal_throughout_repe_completes() {
    let desc = cmpsw_descriptor();
    let prog = empty_program_with_descriptor(desc.clone());
    let mut state =
        rigged_state(&["CX", "DI", "SI", "ES", "DS", "AL", "AX", "flags", "repType"]);
    state.set_var("CX", 4);
    state.set_var("DI", 0x100);
    state.set_var("SI", 0x80);
    state.set_var("ES", 0x4000);
    state.set_var("DS", 0x1000);
    state.set_var("flags", 0);
    state.set_var("repType", 1); // REPE
    let dst_base = 0x4000 * 16 + 0x100;
    let src_base = 0x1000 * 16 + 0x80;
    for i in 0..4 {
        state.memory[dst_base + i * 2] = 0xEF;
        state.memory[dst_base + i * 2 + 1] = 0xBE;
        state.memory[src_base + i * 2] = 0xEF;
        state.memory[src_base + i * 2 + 1] = 0xBE;
    }
    let memory_before = state.memory.clone();
    let outcome = apply_read_only(&desc, &prog, &mut state, &[]);
    assert_eq!(outcome, ApplyOutcome::Applied { iterations: 4 });
    assert_eq!(state.memory, memory_before);
}

#[test]
fn read_only_scas_byte_repne_finds_target() {
    let desc = scasb_descriptor();
    let prog = empty_program_with_descriptor(desc.clone());
    let mut state =
        rigged_state(&["CX", "DI", "ES", "DS", "AL", "AX", "flags", "repType"]);
    state.set_var("CX", 32);
    state.set_var("DI", 0x500);
    state.set_var("ES", 0x4000);
    state.set_var("DS", 0); // SCAS doesn't read DS but the resolver still tries
    state.set_var("AL", 0x42);
    state.set_var("flags", 0);
    state.set_var("repType", 2); // REPNE — exit on equality
    let dst_base = 0x4000 * 16 + 0x500;
    for i in 0..32 {
        state.memory[dst_base + i] = 0xFF;
    }
    state.memory[dst_base + 7] = 0x42;
    let outcome = apply_read_only(&desc, &prog, &mut state, &[]);
    assert_eq!(outcome, ApplyOutcome::Applied { iterations: 8 });
}

#[test]
fn read_only_scas_byte_repne_no_match_full_counter() {
    let desc = scasb_descriptor();
    let prog = empty_program_with_descriptor(desc.clone());
    let mut state =
        rigged_state(&["CX", "DI", "ES", "DS", "AL", "AX", "flags", "repType"]);
    state.set_var("CX", 10);
    state.set_var("DI", 0x600);
    state.set_var("ES", 0x4000);
    state.set_var("AL", 0xCC);
    state.set_var("flags", 0);
    state.set_var("repType", 2); // REPNE
    let dst_base = 0x4000 * 16 + 0x600;
    for i in 0..10 {
        state.memory[dst_base + i] = 0xDD; // never matches AL=0xCC
    }
    let memory_before = state.memory.clone();
    let outcome = apply_read_only(&desc, &prog, &mut state, &[]);
    assert_eq!(outcome, ApplyOutcome::Applied { iterations: 10 });
    assert_eq!(state.memory, memory_before);
}

#[test]
fn read_only_scas_word_repne_finds_target() {
    let desc = scasw_descriptor();
    let prog = empty_program_with_descriptor(desc.clone());
    let mut state =
        rigged_state(&["CX", "DI", "ES", "DS", "AL", "AX", "flags", "repType"]);
    state.set_var("CX", 8);
    state.set_var("DI", 0x100);
    state.set_var("ES", 0x4000);
    state.set_var("AX", 0xDEAD);
    state.set_var("flags", 0);
    state.set_var("repType", 2); // REPNE
    let dst_base = 0x4000 * 16 + 0x100;
    for i in 0..8 {
        state.memory[dst_base + i * 2] = 0xEF;
        state.memory[dst_base + i * 2 + 1] = 0xBE;
    }
    state.memory[dst_base + 4 * 2] = 0xAD;
    state.memory[dst_base + 4 * 2 + 1] = 0xDE;
    let outcome = apply_read_only(&desc, &prog, &mut state, &[]);
    assert_eq!(outcome, ApplyOutcome::Applied { iterations: 5 });
}

#[test]
fn read_only_refuses_non_read_only_class() {
    let mut desc = lodsb_descriptor();
    desc.bulk_class = BulkClass::Fill;
    let prog = empty_program_with_descriptor(desc.clone());
    let mut state = rigged_state(&["CX", "SI", "DS", "flags"]);
    state.set_var("CX", 1);
    let outcome = apply_read_only(&desc, &prog, &mut state, &[]);
    assert!(matches!(outcome, ApplyOutcome::Unsupported(_)));
}

#[test]
fn read_only_refuses_when_writes_present() {
    let mut desc = lodsb_descriptor();
    desc.writes.push(WriteEntry {
        addr_property: "--mAddr0".to_string(),
        val_property: "--mVal0".to_string(),
        addr_expr: lit(0.0),
        val_expr: lit(0.0),
        addr_decomposition: None,
        val_indirect_read: None,
    });
    let prog = empty_program_with_descriptor(desc.clone());
    let mut state = rigged_state(&["CX", "SI", "DS", "flags"]);
    state.set_var("CX", 1);
    let outcome = apply_read_only(&desc, &prog, &mut state, &[]);
    assert!(matches!(outcome, ApplyOutcome::Unsupported(_)));
}

#[test]
fn read_only_refuses_when_no_pointers() {
    let mut desc = lodsb_descriptor();
    desc.pointers.clear();
    let prog = empty_program_with_descriptor(desc.clone());
    let mut state = rigged_state(&["CX", "SI", "DS", "flags"]);
    state.set_var("CX", 1);
    let outcome = apply_read_only(&desc, &prog, &mut state, &[]);
    assert!(matches!(outcome, ApplyOutcome::Unsupported(_)));
}

#[test]
fn read_only_refuses_lods_shape_with_two_pointers() {
    let mut desc = lodsb_descriptor();
    desc.pointers.push(PointerEntry {
        property: "--DI".to_string(),
        self_property: "--DI".to_string(),
        base_step: 1,
        flag_property: "--flags".to_string(),
        flag_bit: 10,
    });
    let prog = empty_program_with_descriptor(desc.clone());
    let mut state = rigged_state(&["CX", "SI", "DI", "DS", "flags"]);
    state.set_var("CX", 4);
    let outcome = apply_read_only(&desc, &prog, &mut state, &[]);
    assert!(matches!(outcome, ApplyOutcome::Unsupported(_)));
}

#[test]
fn read_only_refuses_cmps_with_mismatched_steps() {
    let mut desc = cmpsb_descriptor();
    desc.pointers[1].base_step = 2;
    let prog = empty_program_with_descriptor(desc.clone());
    let mut state =
        rigged_state(&["CX", "DI", "SI", "ES", "DS", "AL", "AX", "flags", "repType"]);
    state.set_var("CX", 4);
    state.set_var("repType", 1);
    let outcome = apply_read_only(&desc, &prog, &mut state, &[]);
    assert!(matches!(outcome, ApplyOutcome::Unsupported(_)));
}

#[test]
fn read_only_lods_genericity_unrelated_names() {
    let desc = LoopDescriptor {
        key_property: "--opaque_key".to_string(),
        key_value: 0x99,
        ip_property: "--ip_x".to_string(),
        ip_self_property: "--ip_x_prev".to_string(),
        ip_advance_literal: 1,
        predicate_properties: vec!["--cont_x".to_string()],
        predicate: StyleTest::Single {
            property: "--cont_x".to_string(),
            value: lit(1.0),
        },
        predicate_means_stay: true,
        counter: Some(CounterEntry {
            property: "--alpha".to_string(),
            self_property: "--alpha_prev".to_string(),
            step: 1,
        }),
        pointers: vec![PointerEntry {
            property: "--beta".to_string(),
            self_property: "--beta".to_string(),
            base_step: 1,
            flag_property: "--gamma".to_string(),
            flag_bit: 7, // arbitrary
        }],
        writes: vec![],
        flag_conditioned: false,
        bulk_class: BulkClass::ReadOnly,
        per_iter_cycles: Some(CycleCharge { property: "--cycle_x".to_string(), per_iter: 15 }),
        ip_extra_advance_slot: Some("--prefixLen".to_string()),
        comparison_shape: None,
        precondition: None,
    };
    let prog = empty_program_with_descriptor(desc.clone());
    let mut state = rigged_state(&["alpha", "beta", "gamma"]);
    state.set_var("alpha", 11);
    state.set_var("beta", 0x2000);
    state.set_var("gamma", 0); // bit 7 clear → forward
    let memory_before = state.memory.clone();
    let outcome = apply_read_only(&desc, &prog, &mut state, &[]);
    assert_eq!(outcome, ApplyOutcome::Applied { iterations: 11 });
    assert_eq!(state.memory, memory_before);
}

#[test]
fn read_only_scas_equivalence_byte_repne() {
    let desc = scasb_descriptor();
    let prog = empty_program_with_descriptor(desc.clone());
    let names = &["CX", "DI", "ES", "DS", "AL", "AX", "flags", "repType"];
    let mut state_a = rigged_state(names);
    let mut state_b = rigged_state(names);
    let n = 64i32;
    for s in [&mut state_a, &mut state_b] {
        s.set_var("CX", n);
        s.set_var("DI", 0x80);
        s.set_var("ES", 0x4000);
        s.set_var("AL", 0x77);
        s.set_var("flags", 0);
        s.set_var("repType", 2); // REPNE
        let dst_base = 0x4000 * 16 + 0x80;
        for k in 0..(n as usize) {
            s.memory[dst_base + k] = (k as u8).wrapping_mul(3); // varied bytes
        }
        s.memory[dst_base + 23] = 0x77; // first match at offset 23
    }
    let mem_a_before = state_a.memory.clone();
    let outcome_a = apply_read_only(&desc, &prog, &mut state_a, &[]);
    let mut iters_b = 0i32;
    let mut di_b = 0x80i64;
    let es_base = 0x4000i64 * 16;
    let acc = 0x77;
    for _ in 0..n {
        let dst_lin = (es_base + di_b) & 0xFFFFF;
        let dst_v = state_b.read_mem(dst_lin as i32) & 0xFF;
        di_b = (di_b + 1) & 0xFFFF;
        iters_b += 1;
        if acc == dst_v {
            break;
        }
    }
    assert_eq!(
        outcome_a,
        ApplyOutcome::Applied { iterations: iters_b },
        "applier and direct loop must report same iteration count",
    );
    assert_eq!(state_a.memory, mem_a_before);
    assert_eq!(state_a.memory, state_b.memory);
}

#[test]
fn read_only_cmps_equivalence_byte_repe() {
    let desc = cmpsb_descriptor();
    let prog = empty_program_with_descriptor(desc.clone());
    let names = &["CX", "DI", "SI", "ES", "DS", "AL", "AX", "flags", "repType"];
    let mut state_a = rigged_state(names);
    let mut state_b = rigged_state(names);
    let n = 32i32;
    for s in [&mut state_a, &mut state_b] {
        s.set_var("CX", n);
        s.set_var("DI", 0x200);
        s.set_var("SI", 0x100);
        s.set_var("ES", 0x4000);
        s.set_var("DS", 0x1000);
        s.set_var("flags", 0);
        s.set_var("repType", 1); // REPE
        let dst_base = 0x4000 * 16 + 0x200;
        let src_base = 0x1000 * 16 + 0x100;
        for k in 0..(n as usize) {
            s.memory[dst_base + k] = 0x33;
            s.memory[src_base + k] = 0x33;
        }
        s.memory[src_base + 11] = 0x44;
    }
    let mem_a_before = state_a.memory.clone();
    let outcome_a = apply_read_only(&desc, &prog, &mut state_a, &[]);
    let mut iters_b = 0i32;
    let mut di_b = 0x200i64;
    let mut si_b = 0x100i64;
    let es_base = 0x4000i64 * 16;
    let ds_base = 0x1000i64 * 16;
    for _ in 0..n {
        let dst_v = state_b.read_mem(((es_base + di_b) & 0xFFFFF) as i32) & 0xFF;
        let src_v = state_b.read_mem(((ds_base + si_b) & 0xFFFFF) as i32) & 0xFF;
        di_b = (di_b + 1) & 0xFFFF;
        si_b = (si_b + 1) & 0xFFFF;
        iters_b += 1;
        if src_v != dst_v {
            break;
        }
    }
    assert_eq!(
        outcome_a,
        ApplyOutcome::Applied { iterations: iters_b },
    );
    assert_eq!(state_a.memory, mem_a_before);
    assert_eq!(state_a.memory, state_b.memory);
}

#[test]
fn commit_full_stosb_updates_state_vars() {
    let desc = stosb_descriptor();
    let prog = empty_program_with_descriptor(desc.clone());
    let mut state = rigged_state(&[
        "CX", "DI", "ES", "AL", "flags", "IP", "cycleCount", "prefixLen",
    ]);
    state.set_var("CX", 32);
    state.set_var("DI", 0x100);
    state.set_var("ES", 0x2000);
    state.set_var("AL", 0x55);
    state.set_var("flags", 0); // DF=0
    state.set_var("IP", 0x1234);
    state.set_var("cycleCount", 1000);
    state.set_var("prefixLen", 1);
    let outcome = apply_fill_with_commit(&desc, &prog, &mut state, &[], CommitMode::Full);
    assert_eq!(outcome, ApplyOutcome::Applied { iterations: 32 });
    assert_eq!(state.get_var("DI"), Some(0x120));
    assert_eq!(state.get_var("CX"), Some(0));
    assert_eq!(state.get_var("IP"), Some(0x1236));
    assert_eq!(state.get_var("cycleCount"), Some(1320));
}

#[test]
fn commit_full_renamed_ip_and_cycle_slots_commit_to_cabinet_names() {
    let mut desc = stosb_descriptor();
    desc.ip_property = "--pc_y".to_string();
    desc.per_iter_cycles =
        Some(CycleCharge { property: "--zorch".to_string(), per_iter: 10 });
    let prog = empty_program_with_descriptor(desc.clone());
    let mut state = rigged_state(&[
        "CX", "DI", "ES", "AL", "flags", "pc_y", "zorch", "prefixLen",
    ]);
    state.set_var("CX", 32);
    state.set_var("DI", 0x100);
    state.set_var("ES", 0x2000);
    state.set_var("AL", 0x55);
    state.set_var("flags", 0); // DF=0
    state.set_var("pc_y", 0x1234);
    state.set_var("zorch", 1000);
    state.set_var("prefixLen", 1);
    let outcome = apply_fill_with_commit(&desc, &prog, &mut state, &[], CommitMode::Full);
    assert_eq!(outcome, ApplyOutcome::Applied { iterations: 32 });
    assert_eq!(state.get_var("pc_y"), Some(0x1236));
    assert_eq!(state.get_var("zorch"), Some(1320));
    assert_eq!(state.get_var("IP"), None);
    assert_eq!(state.get_var("cycleCount"), None);
}

#[test]
fn commit_full_stosw_reverse_dec_pointer() {
    let desc = stosw_descriptor();
    let prog = empty_program_with_descriptor(desc.clone());
    let mut state = rigged_state(&[
        "CX", "DI", "ES", "AL", "AH", "flags", "IP", "cycleCount", "prefixLen",
    ]);
    state.set_var("CX", 8);
    state.set_var("DI", 0x80);
    state.set_var("ES", 0x3000);
    state.set_var("AL", 0x11);
    state.set_var("AH", 0x22);
    state.set_var("flags", 1 << 10); // DF=1
    state.set_var("IP", 0x4000);
    state.set_var("cycleCount", 0);
    state.set_var("prefixLen", 1);
    let outcome = apply_fill_with_commit(&desc, &prog, &mut state, &[], CommitMode::Full);
    assert_eq!(outcome, ApplyOutcome::Applied { iterations: 8 });
    assert_eq!(state.get_var("DI"), Some(0x70));
    assert_eq!(state.get_var("CX"), Some(0));
    assert_eq!(state.get_var("IP"), Some(0x4002));
    assert_eq!(state.get_var("cycleCount"), Some(80)); // 8 * 10
}

#[test]
fn commit_full_movsb_updates_both_pointers() {
    let desc = movsb_descriptor();
    let prog = empty_program_with_descriptor(desc.clone());
    let mut state = rigged_state(&[
        "CX", "DI", "SI", "ES", "DS", "flags", "IP", "cycleCount", "prefixLen",
    ]);
    state.set_var("CX", 16);
    state.set_var("DI", 0x200);
    state.set_var("SI", 0x800);
    state.set_var("ES", 0x4000);
    state.set_var("DS", 0x5000);
    state.set_var("flags", 0); // DF=0
    state.set_var("IP", 0x100);
    state.set_var("cycleCount", 0);
    state.set_var("prefixLen", 1);
    for i in 0..16 {
        state.memory[(0x5000 * 16 + 0x800 + i) as usize] = (i & 0xFF) as u8;
    }
    let outcome = apply_copy_with_commit(&desc, &prog, &mut state, &[], CommitMode::Full);
    assert_eq!(outcome, ApplyOutcome::Applied { iterations: 16 });
    assert_eq!(state.get_var("DI"), Some(0x210));
    assert_eq!(state.get_var("SI"), Some(0x810));
    assert_eq!(state.get_var("CX"), Some(0));
    assert_eq!(state.get_var("IP"), Some(0x102));
    assert_eq!(state.get_var("cycleCount"), Some(272));
}

#[test]
fn commit_full_scasb_repne_finds_match() {
    let desc = scasb_descriptor();
    let prog = empty_program_with_descriptor(desc.clone());
    let mut state = rigged_state(&[
        "CX", "DI", "ES", "AL", "flags", "IP", "cycleCount", "prefixLen", "repType",
    ]);
    state.set_var("CX", 16);
    state.set_var("DI", 0x100);
    state.set_var("ES", 0x6000);
    state.set_var("AL", 0xAA);
    state.set_var("flags", 0); // DF=0, ZF=0
    state.set_var("IP", 0x500);
    state.set_var("cycleCount", 0);
    state.set_var("prefixLen", 1);
    state.set_var("repType", 2); // REPNE
    let base = 0x6000 * 16 + 0x100;
    state.memory[base + 5] = 0xAA;
    let outcome = apply_read_only_with_commit(&desc, &prog, &mut state, &[], CommitMode::Full);
    assert_eq!(outcome, ApplyOutcome::Applied { iterations: 6 });
    assert_eq!(state.get_var("DI"), Some(0x106));
    assert_eq!(state.get_var("CX"), Some(10));
    assert_eq!(state.get_var("IP"), Some(0x502));
    assert_eq!(state.get_var("cycleCount"), Some(90));
    let new_flags = state.get_var("flags").unwrap();
    assert_eq!(new_flags & 0x40, 0x40, "ZF should be set after match");
}

#[test]
fn commit_full_cmpsb_repe_breaks_on_inequality() {
    let desc = cmpsb_descriptor();
    let prog = empty_program_with_descriptor(desc.clone());
    let mut state = rigged_state(&[
        "CX", "DI", "SI", "ES", "DS", "flags", "IP", "cycleCount", "prefixLen", "repType",
    ]);
    state.set_var("CX", 32);
    state.set_var("DI", 0x100);
    state.set_var("SI", 0x800);
    state.set_var("ES", 0x7000);
    state.set_var("DS", 0x8000);
    state.set_var("flags", 0);
    state.set_var("IP", 0x300);
    state.set_var("cycleCount", 0);
    state.set_var("prefixLen", 1);
    state.set_var("repType", 1); // REPE
    let dst_base = 0x7000 * 16 + 0x100;
    let src_base = 0x8000 * 16 + 0x800;
    for i in 0..4 {
        state.memory[dst_base + i] = 0xCC;
        state.memory[src_base + i] = 0xCC;
    }
    state.memory[dst_base + 4] = 0xAA;
    state.memory[src_base + 4] = 0xBB; // different
    let outcome = apply_read_only_with_commit(&desc, &prog, &mut state, &[], CommitMode::Full);
    assert_eq!(outcome, ApplyOutcome::Applied { iterations: 5 });
    assert_eq!(state.get_var("DI"), Some(0x105));
    assert_eq!(state.get_var("SI"), Some(0x805));
    assert_eq!(state.get_var("CX"), Some(27)); // 32 - 5
    assert_eq!(state.get_var("IP"), Some(0x302));
    assert_eq!(state.get_var("cycleCount"), Some(110)); // 5 * 22 (CMPS)
    let new_flags = state.get_var("flags").unwrap();
    assert_eq!(new_flags & 0x40, 0, "ZF should be clear after mismatch");
}

#[test]
fn commit_memory_only_leaves_state_vars_untouched() {
    let desc = stosb_descriptor();
    let prog = empty_program_with_descriptor(desc.clone());
    let mut state = rigged_state(&[
        "CX", "DI", "ES", "AL", "flags", "IP", "cycleCount", "prefixLen",
    ]);
    state.set_var("CX", 16);
    state.set_var("DI", 0x100);
    state.set_var("ES", 0x2000);
    state.set_var("AL", 0x42);
    state.set_var("flags", 0);
    state.set_var("IP", 0x1000);
    state.set_var("cycleCount", 5000);
    state.set_var("prefixLen", 1);
    let outcome = apply_fill_with_commit(&desc, &prog, &mut state, &[], CommitMode::MemoryOnly);
    assert_eq!(outcome, ApplyOutcome::Applied { iterations: 16 });
    assert_eq!(state.get_var("CX"), Some(16));
    assert_eq!(state.get_var("DI"), Some(0x100));
    assert_eq!(state.get_var("IP"), Some(0x1000));
    assert_eq!(state.get_var("cycleCount"), Some(5000));
    assert_eq!(state.memory[0x20100], 0x42);
    assert_eq!(state.memory[0x2010F], 0x42);
}

#[test]
fn full_and_memory_only_agree_on_memory_for_stosb() {
    let desc = stosb_descriptor();
    let prog = empty_program_with_descriptor(desc.clone());
    let mut state_full = rigged_state(&[
        "CX", "DI", "ES", "AL", "flags", "IP", "cycleCount", "prefixLen",
    ]);
    state_full.set_var("CX", 64);
    state_full.set_var("DI", 0x10);
    state_full.set_var("ES", 0xA000);
    state_full.set_var("AL", 0x99);
    state_full.set_var("flags", 0);
    state_full.set_var("IP", 0x500);
    state_full.set_var("cycleCount", 0);
    state_full.set_var("prefixLen", 1);
    let mut state_mem = rigged_state(&[
        "CX", "DI", "ES", "AL", "flags", "IP", "cycleCount", "prefixLen",
    ]);
    state_mem.set_var("CX", 64);
    state_mem.set_var("DI", 0x10);
    state_mem.set_var("ES", 0xA000);
    state_mem.set_var("AL", 0x99);
    state_mem.set_var("flags", 0);
    state_mem.set_var("IP", 0x500);
    state_mem.set_var("cycleCount", 0);
    state_mem.set_var("prefixLen", 1);
    let _ = apply_fill_with_commit(&desc, &prog, &mut state_full, &[], CommitMode::Full);
    let _ = apply_fill_with_commit(&desc, &prog, &mut state_mem, &[], CommitMode::MemoryOnly);
    assert_eq!(state_full.memory, state_mem.memory);
}

#[test]
fn default_apply_fill_equivalent_to_memory_only() {
    let desc = stosb_descriptor();
    let prog = empty_program_with_descriptor(desc.clone());
    let mut state_a = rigged_state(&["CX", "DI", "ES", "AL", "flags"]);
    let mut state_b = rigged_state(&["CX", "DI", "ES", "AL", "flags"]);
    for s in [&mut state_a, &mut state_b] {
        s.set_var("CX", 8);
        s.set_var("DI", 0x40);
        s.set_var("ES", 0xB000);
        s.set_var("AL", 0x77);
        s.set_var("flags", 0);
    }
    let _ = apply_fill(&desc, &prog, &mut state_a, &[]);
    let _ = apply_fill_with_commit(&desc, &prog, &mut state_b, &[], CommitMode::MemoryOnly);
    assert_eq!(state_a.memory, state_b.memory);
}

#[test]
fn precondition_not_met_returns_precondition_not_met_not_unsupported() {
    let mut desc = stosb_descriptor();
    desc.precondition = Some(Precondition::NoOverrides(vec![StyleTest::Single {
        property: "--_irqActive".to_string(),
        value: lit(1.0),
    }]));
    let prog = empty_program_with_descriptor(desc.clone());
    let mut state = rigged_state(&["CX", "DI", "ES", "AL", "flags", "_irqActive"]);
    state.set_var("CX", 64);
    state.set_var("DI", 0x10);
    state.set_var("ES", 0xA000);
    state.set_var("AL", 0x42);
    state.set_var("flags", 0);
    state.set_var("_irqActive", 1);
    let outcome = apply_fill(&desc, &prog, &mut state, &[]);
    assert_eq!(outcome, ApplyOutcome::PreconditionNotMet);
    assert!(!matches!(outcome, ApplyOutcome::Unsupported(_)));
    for i in 0..64 {
        assert_eq!(state.memory[0xA0010 + i], 0);
    }
}

#[test]
fn precondition_met_runs_normally() {
    let mut desc = stosb_descriptor();
    desc.precondition = Some(Precondition::NoOverrides(vec![StyleTest::Single {
        property: "--_irqActive".to_string(),
        value: lit(1.0),
    }]));
    let prog = empty_program_with_descriptor(desc.clone());
    let mut state = rigged_state(&["CX", "DI", "ES", "AL", "flags", "_irqActive"]);
    state.set_var("CX", 64);
    state.set_var("DI", 0x10);
    state.set_var("ES", 0xA000);
    state.set_var("AL", 0x42);
    state.set_var("flags", 0);
    state.set_var("_irqActive", 0); // override does NOT fire
    let outcome = apply_fill(&desc, &prog, &mut state, &[]);
    assert_eq!(outcome, ApplyOutcome::Applied { iterations: 64 });
    for i in 0..64 {
        assert_eq!(state.memory[0xA0010 + i], 0x42);
    }
}

#[test]
fn precondition_none_runs_normally() {
    let desc = stosb_descriptor(); // precondition = None
    assert!(desc.precondition.is_none());
    let prog = empty_program_with_descriptor(desc.clone());
    let mut state = rigged_state(&["CX", "DI", "ES", "AL", "flags"]);
    state.set_var("CX", 8);
    state.set_var("DI", 0x10);
    state.set_var("ES", 0xA000);
    state.set_var("AL", 0x55);
    state.set_var("flags", 0);
    let outcome = apply_fill(&desc, &prog, &mut state, &[]);
    assert_eq!(outcome, ApplyOutcome::Applied { iterations: 8 });
}
