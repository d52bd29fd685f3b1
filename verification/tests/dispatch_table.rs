//! Recognition of dispatch tables.

use calcite_core::number::Number;
use calcite_core::pattern::dispatch_table::recognise_dispatch;
use calcite_core::types::{Expr, StyleBranch, StyleTest};

fn lit(v: f64) -> Expr {
    Expr::Literal(Number::from_bits(v.to_bits()))
}

fn make_branch(prop: &str, val: f64, then: f64) -> StyleBranch {
    StyleBranch {
        condition: StyleTest::Single {
            property: prop.to_string(),
            value: lit(val),
        },
        then: lit(then),
    }
}

#[test]
fn recognises_dispatch_table() {
    let branches: Vec<_> = (0..10)
        .map(|i| make_branch("--at", i as f64, (i * 100) as f64))
        .collect();
    let fallback = lit(0.0);

    let table = recognise_dispatch(&branches, &fallback).unwrap();
    assert_eq!(table.key_property, "--at");
    assert_eq!(table.entries.len(), 10);
    assert!(matches!(&table.entries[&5], Expr::Literal(v) if (f64::from_bits(v.bits) - 500.0).abs() < f64::EPSILON));
}

#[test]
fn rejects_mixed_properties() {
    let branches = vec![
        make_branch("--a", 1.0, 10.0),
        make_branch("--b", 2.0, 20.0),
        make_branch("--a", 3.0, 30.0),
        make_branch("--a", 4.0, 40.0),
    ];
    assert!(recognise_dispatch(&branches, &lit(0.0)).is_none());
}

#[test]
fn rejects_small_chains() {
    let branches = vec![make_branch("--x", 1.0, 10.0), make_branch("--x", 2.0, 20.0)];
    assert!(recognise_dispatch(&branches, &lit(0.0)).is_none());
}

#[test]
fn keys_are_integers() {
    let mut branches: Vec<_> = (0..4).map(|i| make_branch("--at", i as f64, 1.0)).collect();
    assert!(recognise_dispatch(&branches, &lit(0.0)).is_some());
    branches.push(make_branch("--at", 4.5, 1.0));
    assert!(recognise_dispatch(&branches, &lit(0.0)).is_none());
}

#[test]
fn the_first_branch_of_a_key_counts() {
    let mut branches: Vec<_> = (0..4).map(|i| make_branch("--at", i as f64, 10.0 + i as f64)).collect();
    branches.push(make_branch("--at", 2.0, 99.0));
    let table = recognise_dispatch(&branches, &lit(0.0)).unwrap();
    assert_eq!(table.entries.len(), 4);
    assert_eq!(table.entries[&2], lit(12.0));
}
