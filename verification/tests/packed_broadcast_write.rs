//! Recognition of packed broadcast writes.

use calcite_core::number::Number;
use calcite_core::pattern::packed_broadcast_write::{
    parse_packed_cell_index, recognise_packed_broadcast,
};
use calcite_core::types::{Assignment, CalcOp, Expr};

fn lit(v: f64) -> Expr {
    Expr::Literal(Number::from_bits(v.to_bits()))
}

fn var(name: &str) -> Expr {
    Expr::Var {
        name: name.to_string(),
        fallback: None,
    }
}

fn off(addr: &str, k: i64) -> Expr {
    if k == 0 {
        return var(addr);
    }
    Expr::Calc(CalcOp::Sub(Box::new(var(addr)), Box::new(lit(k as f64))))
}

fn hi_off(addr: &str, k: i64) -> Expr {
    if k == 0 {
        return Expr::Calc(CalcOp::Add(Box::new(var(addr)), Box::new(lit(1.0))));
    }

    Expr::Calc(CalcOp::Sub(
        Box::new(Expr::Calc(CalcOp::Add(
            Box::new(var(addr)),
            Box::new(lit(1.0)),
        ))),
        Box::new(lit(k as f64)),
    ))
}

fn off_mul(addr: &str, cell_idx: i64, pack: i64) -> Expr {
    Expr::Calc(CalcOp::Sub(
        Box::new(var(addr)),
        Box::new(Expr::Calc(CalcOp::Mul(
            Box::new(lit(cell_idx as f64)),
            Box::new(lit(pack as f64)),
        ))),
    ))
}

fn hi_off_mul(addr: &str, cell_idx: i64, pack: i64) -> Expr {
    Expr::Calc(CalcOp::Sub(
        Box::new(Expr::Calc(CalcOp::Add(
            Box::new(var(addr)),
            Box::new(lit(1.0)),
        ))),
        Box::new(Expr::Calc(CalcOp::Mul(
            Box::new(lit(cell_idx as f64)),
            Box::new(lit(pack as f64)),
        ))),
    ))
}

fn make_packed_cell(cell_idx: u32) -> Assignment {
    let cell_addr = (cell_idx as i64) * 2;
    let cell_prop = format!("--mc{cell_idx}");
    let mut expr = var(&format!("--__1mc{cell_idx}"));

    for slot in (0..3).rev() {
        expr = Expr::FunctionCall {
            name: "--applySlot".to_string(),
            args: vec![
                expr,
                var(&format!("--_slot{slot}Live")),
                off(&format!("--memAddr{slot}"), cell_addr),
                hi_off(&format!("--memAddr{slot}"), cell_addr),
                var(&format!("--memVal{slot}")),
                var(&format!("--_slot{slot}Width")),
            ],
        };
    }
    Assignment {
        property: cell_prop,
        value: expr,
    }
}

#[test]
fn recognises_thousand_cell_packed_broadcast() {
    let assignments: Vec<_> = (0..1000).map(make_packed_cell).collect();
    let result = recognise_packed_broadcast(&assignments);
    assert_eq!(result.ports.len(), 3, "Should have 3 slot ports");
    assert_eq!(result.absorbed_properties.len(), 1000);
    assert_eq!(result.pack, 2);
    for (i, port) in result.ports.iter().enumerate() {
        assert_eq!(port.gate_property, format!("--_slot{i}Live"));
        assert_eq!(port.addr_property, format!("--memAddr{i}"));
        assert_eq!(port.val_property, format!("--memVal{i}"));
        assert_eq!(port.width_property, format!("--_slot{i}Width"));
        assert_eq!(port.address_map.len(), 1000);
        assert_eq!(
            port.address_map.get(&0).map(|s| s.as_str()),
            Some("--mc0")
        );
        assert_eq!(
            port.address_map.get(&1998).map(|s| s.as_str()),
            Some("--mc999")
        );
    }
}

#[test]
fn recognises_packed_broadcast_with_mul_offset() {
    let mut assignments = Vec::new();
    for cell_idx in 0..200u32 {
        let cell_prop = format!("--mc{cell_idx}");
        let mut expr = var(&format!("--__1mc{cell_idx}"));
        for slot in (0..3).rev() {
            expr = Expr::FunctionCall {
                name: "--applySlot".to_string(),
                args: vec![
                    expr,
                    var(&format!("--_slot{slot}Live")),
                    off_mul(&format!("--memAddr{slot}"), cell_idx as i64, 2),
                    hi_off_mul(&format!("--memAddr{slot}"), cell_idx as i64, 2),
                    var(&format!("--memVal{slot}")),
                    var(&format!("--_slot{slot}Width")),
                ],
            };
        }
        assignments.push(Assignment { property: cell_prop, value: expr });
    }
    let result = recognise_packed_broadcast(&assignments);
    assert_eq!(result.ports.len(), 3);
    assert_eq!(result.absorbed_properties.len(), 200);
    for port in &result.ports {
        assert_eq!(port.address_map.len(), 200);

        assert_eq!(port.address_map.get(&14).map(|s| s.as_str()), Some("--mc7"));
    }
}

#[test]
fn rejects_too_few_cells() {
    let assignments: Vec<_> = (0..50).map(make_packed_cell).collect();
    let result = recognise_packed_broadcast(&assignments);
    assert!(result.ports.is_empty());
    assert!(result.absorbed_properties.is_empty());
}

#[test]
fn rejects_non_mc_properties() {
    let assignments = vec![Assignment {
        property: "--m42".to_string(),
        value: var("--__1m42"),
    }];
    let result = recognise_packed_broadcast(&assignments);
    assert!(result.ports.is_empty());
}

#[test]
fn rejects_chain_with_wrong_inner_var() {
    let mut a = make_packed_cell(0);

    let mut cur = &mut a.value;
    loop {
        match cur {
            Expr::FunctionCall { args, .. } => {
                cur = &mut args[0];
            }
            Expr::Var { name, .. } => {
                *name = "--unrelated".to_string();
                break;
            }
            _ => unreachable!(),
        }
    }
    let mut assignments = vec![a];

    assignments.extend((1..200).map(make_packed_cell));
    let result = recognise_packed_broadcast(&assignments);

    for port in &result.ports {
        assert!(
            !port.address_map.contains_key(&0),
            "Malformed cell should not be absorbed"
        );
    }
    assert!(!result.absorbed_properties.contains("--mc0"));
    assert_eq!(result.absorbed_properties.len(), 199);
}

#[test]
fn rejects_when_offset_does_not_match_cell_addr() {
    let mut a = make_packed_cell(5);

    if let Expr::FunctionCall { args, .. } = &mut a.value {
        args[2] = off("--memAddr0", 999);
    }
    let mut assignments = vec![a];
    assignments.extend((10..200).map(make_packed_cell));
    let result = recognise_packed_broadcast(&assignments);
    assert!(!result.absorbed_properties.contains("--mc5"));
}

#[test]
fn cell_zero_handled_with_collapsed_offset() {
    let assignments: Vec<_> = (0..200).map(make_packed_cell).collect();
    let result = recognise_packed_broadcast(&assignments);
    assert!(result.absorbed_properties.contains("--mc0"));
    assert_eq!(
        result.ports[0].address_map.get(&0).map(|s| s.as_str()),
        Some("--mc0")
    );
}

#[test]
fn parse_packed_cell_index_basic() {
    assert_eq!(parse_packed_cell_index("--mc0"), Some(0));
    assert_eq!(parse_packed_cell_index("--mc42"), Some(42));
    assert_eq!(parse_packed_cell_index("--mc999999"), Some(999999));
    assert_eq!(parse_packed_cell_index("--mc"), None);
    assert_eq!(parse_packed_cell_index("--m42"), None);
    assert_eq!(parse_packed_cell_index("--mcfoo"), None);
    assert_eq!(parse_packed_cell_index("--mc-1"), None);
}

#[test]
fn bare_cells_give_nothing() {
    let assignments: Vec<_> = (0..100)
        .map(|i| Assignment { property: format!("--mc{i}"), value: var(&format!("--__1mc{i}")) })
        .collect();
    let result = recognise_packed_broadcast(&assignments);
    assert!(result.ports.is_empty());
    assert_eq!(result.absorbed_properties.len(), 0);
}

#[test]
fn bare_cells_beside_ports_are_not_absorbed() {
    let mut assignments: Vec<_> = (0..100).map(make_packed_cell).collect();
    assignments.push(Assignment {
        property: "--mc100".to_string(),
        value: var("--__1mc100"),
    });
    let result = recognise_packed_broadcast(&assignments);
    assert_eq!(result.ports.len(), 3);
    assert_eq!(result.absorbed_properties.len(), 100);
    assert!(!result.absorbed_properties.contains("--mc100"));
    let copy = result.ports[0].clone();
    assert_eq!(copy.gate_property, result.ports[0].gate_property);
    assert_eq!(copy.address_map, result.ports[0].address_map);
    assert_eq!(copy.pack, 2);
}
