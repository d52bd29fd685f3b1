//! Recognition of broadcast writes.

use calcite_core::number::Number;
use calcite_core::pattern::broadcast_write::recognise_broadcast;
use calcite_core::types::{Assignment, CalcOp, Expr, StyleBranch, StyleTest};

fn lit(v: f64) -> Expr {
    Expr::Literal(Number::from_bits(v.to_bits()))
}

fn make_broadcast_assignment(name: &str, addr: i64) -> Assignment {
    Assignment {
        property: format!("--{name}"),
        value: Expr::StyleCondition {
            branches: vec![StyleBranch {
                condition: StyleTest::Single {
                    property: "--addrDestA".to_string(),
                    value: lit(addr as f64),
                },
                then: Expr::Var {
                    name: "--addrValA".to_string(),
                    fallback: None,
                },
            }],
            fallback: Box::new(Expr::Var {
                name: format!("--__1{name}"),
                fallback: None,
            }),
        },
    }
}

fn make_compound_broadcast_assignment(name: &str, addr: i64) -> Assignment {
    let mut branches = vec![StyleBranch {
        condition: StyleTest::Single {
            property: "--addrDestA".to_string(),
            value: lit(addr as f64),
        },
        then: Expr::Var {
            name: "--addrValA".to_string(),
            fallback: None,
        },
    }];
    if addr > 0 {
        branches.push(StyleBranch {
            condition: StyleTest::And(vec![
                StyleTest::Single {
                    property: "--addrDestA".to_string(),
                    value: lit((addr - 1) as f64),
                },
                StyleTest::Single {
                    property: "--isWordWrite".to_string(),
                    value: lit(1.0),
                },
            ]),
            then: Expr::Var {
                name: "--addrValA1".to_string(),
                fallback: None,
            },
        });
    }

    branches.push(StyleBranch {
        condition: StyleTest::Single {
            property: "--addrDestB".to_string(),
            value: lit(addr as f64),
        },
        then: Expr::Var {
            name: "--addrValB".to_string(),
            fallback: None,
        },
    });

    Assignment {
        property: format!("--{name}"),
        value: Expr::StyleCondition {
            branches,
            fallback: Box::new(Expr::Var {
                name: format!("--__1{name}"),
                fallback: None,
            }),
        },
    }
}

#[test]
fn detects_simple_broadcast() {
    let assignments: Vec<Assignment> = (0..20)
        .map(|i| make_broadcast_assignment(&format!("m{i}"), i))
        .collect();
    let result = recognise_broadcast(&assignments);
    assert_eq!(result.writes.len(), 1);
    assert_eq!(result.writes[0].dest_property, "--addrDestA");
    assert_eq!(result.writes[0].address_map.len(), 20);
    assert_eq!(result.absorbed_properties.len(), 20);
}

#[test]
fn compound_memory_cell_broadcast() {
    let assignments: Vec<Assignment> = (0..20)
        .map(|i| make_compound_broadcast_assignment(&format!("m{i}"), i))
        .collect();
    let result = recognise_broadcast(&assignments);
    assert_eq!(
        result.writes.len(),
        2,
        "Should have 2 write ports (A and B)"
    );
    let write_a = result
        .writes
        .iter()
        .find(|w| w.dest_property == "--addrDestA")
        .expect("Should have --addrDestA");
    assert_eq!(write_a.address_map.len(), 20);
    assert!(!write_a.spillover_map.is_empty());
    assert_eq!(
        write_a.spillover_guard.as_deref(),
        Some("--isWordWrite"),
        "Spillover should be gated by --isWordWrite"
    );
}

#[test]
fn side_channel_not_absorbed() {
    let sp_assignment = Assignment {
        property: "--SP".to_string(),
        value: Expr::StyleCondition {
            branches: vec![StyleBranch {
                condition: StyleTest::Single {
                    property: "--addrDestA".to_string(),
                    value: lit(-5.0),
                },
                then: Expr::Var {
                    name: "--addrValA".to_string(),
                    fallback: None,
                },
            }],
            fallback: Box::new(Expr::Calc(CalcOp::Add(
                Box::new(Expr::Var {
                    name: "--__1SP".to_string(),
                    fallback: None,
                }),
                Box::new(Expr::Var {
                    name: "--moveStack".to_string(),
                    fallback: None,
                }),
            ))),
        },
    };
    let mut assignments: Vec<Assignment> = (0..20)
        .map(|i| make_broadcast_assignment(&format!("m{i}"), i))
        .collect();
    assignments.push(sp_assignment);
    let result = recognise_broadcast(&assignments);
    assert!(!result.absorbed_properties.contains("--SP"));
}

#[test]
fn too_few_entries_not_recognised() {
    let assignments: Vec<Assignment> = (0..5)
        .map(|i| make_broadcast_assignment(&format!("m{i}"), i))
        .collect();
    let result = recognise_broadcast(&assignments);
    assert!(result.writes.is_empty());
}

fn make_v2_broadcast_assignment(name: &str, addr: i64) -> Assignment {
    Assignment {
        property: format!("--{name}"),
        value: Expr::StyleCondition {
            branches: vec![
                StyleBranch {
                    condition: StyleTest::Single {
                        property: "--memAddr0".to_string(),
                        value: lit(addr as f64),
                    },
                    then: Expr::Var {
                        name: "--memVal0".to_string(),
                        fallback: None,
                    },
                },
                StyleBranch {
                    condition: StyleTest::Single {
                        property: "--memAddr1".to_string(),
                        value: lit(addr as f64),
                    },
                    then: Expr::Var {
                        name: "--memVal1".to_string(),
                        fallback: None,
                    },
                },
                StyleBranch {
                    condition: StyleTest::Single {
                        property: "--memAddr2".to_string(),
                        value: lit(addr as f64),
                    },
                    then: Expr::Var {
                        name: "--memVal2".to_string(),
                        fallback: None,
                    },
                },
            ],
            fallback: Box::new(Expr::Var {
                name: format!("--__1{name}"),
                fallback: None,
            }),
        },
    }
}

#[test]
fn detects_v2_broadcast() {
    let assignments: Vec<Assignment> = (0..20)
        .map(|i| make_v2_broadcast_assignment(&format!("m{i}"), i))
        .collect();
    let result = recognise_broadcast(&assignments);
    assert_eq!(result.writes.len(), 3, "Should have 3 write ports (memAddr0/1/2)");
    for port_name in &["--memAddr0", "--memAddr1", "--memAddr2"] {
        let write = result
            .writes
            .iter()
            .find(|w| w.dest_property == *port_name)
            .unwrap_or_else(|| panic!("Should have {port_name}"));
        assert_eq!(write.address_map.len(), 20);
    }
    assert_eq!(result.absorbed_properties.len(), 20);
}

#[test]
fn opcode_dispatch_not_absorbed_as_broadcast() {
    let assignments: Vec<Assignment> = vec![Assignment {
        property: "--nextAX".to_string(),
        value: Expr::StyleCondition {
            branches: (0..20)
                .map(|i| StyleBranch {
                    condition: StyleTest::Single {
                        property: "--opcode".to_string(),
                        value: lit(i as f64),
                    },
                    then: lit(i as f64 + 100.0),
                })
                .collect(),
            fallback: Box::new(Expr::Var {
                name: "--__1nextAX".to_string(),
                fallback: None,
            }),
        },
    }];
    let result = recognise_broadcast(&assignments);
    assert!(
        result.writes.is_empty(),
        "Opcode dispatch should not be recognised as broadcast"
    );
    assert!(result.absorbed_properties.is_empty());
}

#[test]
fn two_properties_at_one_address_are_not_both_absorbed() {
    let mut assignments: Vec<Assignment> =
        (0..20).map(|i| make_broadcast_assignment(&format!("m{i}"), i)).collect();
    assignments.push(make_broadcast_assignment("twin", 5));
    let result = recognise_broadcast(&assignments);
    assert_eq!(result.writes.len(), 1);
    let written = result.writes[0].address_map.get(&5).unwrap().clone();
    let other = if written == "--twin" { "--m5" } else { "--twin" };
    assert!(result.absorbed_properties.contains(&written));
    assert!(!result.absorbed_properties.contains(other));
    assert_eq!(result.absorbed_properties.len(), 20);
}

#[test]
fn other_marks_are_no_copies() {
    let assignments: Vec<Assignment> = (0..20)
        .map(|i| {
            let mut a = make_broadcast_assignment(&format!("m{i}"), i);
            if let Expr::StyleCondition { fallback, .. } = &mut a.value {
                *fallback = Box::new(Expr::Var { name: format!("--__9m{i}"), fallback: None });
            }
            a
        })
        .collect();
    let result = recognise_broadcast(&assignments);
    assert_eq!(result.absorbed_properties.len(), 0);
}

#[test]
fn a_copied_write_is_the_same_write() {
    let assignments: Vec<Assignment> =
        (0..20).map(|i| make_compound_broadcast_assignment(&format!("m{i}"), i)).collect();
    let write = recognise_broadcast(&assignments).writes.remove(0);
    let copy = write.clone();
    assert_eq!(copy.dest_property, write.dest_property);
    assert_eq!(copy.value_expr, write.value_expr);
    assert_eq!(copy.address_map, write.address_map);
    assert_eq!(copy.spillover_map, write.spillover_map);
    assert_eq!(copy.spillover_guard, write.spillover_guard);
}
