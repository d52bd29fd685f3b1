//! What recognition finds in a loop that compares.

use calcite_core::number::Number;
use calcite_core::pattern::loop_descriptor::{
    recognise_loops, BulkClass, ComparisonShape, ComparisonSource, CycleCharge, LoopDescriptor,
    Precondition,
};
use calcite_core::types::{Assignment, CalcOp, Expr, StyleBranch, StyleTest};

fn lit(v: f64) -> Expr {
    Expr::Literal(Number::from_bits(v.to_bits()))
}

fn var(name: &str) -> Expr {
    Expr::Var { name: name.to_string(), fallback: None }
}

fn plus(a: Expr, b: Expr) -> Expr {
    Expr::Calc(CalcOp::Add(Box::new(a), Box::new(b)))
}

fn minus(a: Expr, b: Expr) -> Expr {
    Expr::Calc(CalcOp::Sub(Box::new(a), Box::new(b)))
}

fn times(a: Expr, b: Expr) -> Expr {
    Expr::Calc(CalcOp::Mul(Box::new(a), Box::new(b)))
}

fn negative(a: Expr) -> Expr {
    Expr::Calc(CalcOp::Negate(Box::new(a)))
}

fn call(name: &str, args: Vec<Expr>) -> Expr {
    Expr::FunctionCall { name: name.to_string(), args }
}

fn is(property: &str, v: f64) -> StyleTest {
    StyleTest::Single { property: property.to_string(), value: lit(v) }
}

fn when(tests: Vec<(StyleTest, Expr)>, fallback: Expr) -> Expr {
    Expr::StyleCondition {
        branches: tests
            .into_iter()
            .map(|(condition, then)| StyleBranch { condition, then })
            .collect(),
        fallback: Box::new(fallback),
    }
}

fn keyed(property: &str, body: Expr) -> Assignment {
    Assignment {
        property: property.to_string(),
        value: when(vec![(is("--op", 1.0), body)], var("--rest")),
    }
}

fn set(property: &str, value: Expr) -> Assignment {
    Assignment { property: property.to_string(), value }
}

fn pointer(name: &str) -> Expr {
    let step = minus(
        plus(var(name), lit(1.0)),
        times(call("--bit", vec![var("--flags0"), lit(10.0)]), lit(2.0)),
    );
    when(vec![(is("--idle", 1.0), var(name))], call("--low", vec![step, lit(16.0)]))
}

fn instruction_pointer() -> Expr {
    let stay = minus(var("--ip0"), var("--prefix"));
    let equal = StyleTest::And(vec![is("--rep", 1.0), is("--zf", 1.0)]);
    let unequal = StyleTest::And(vec![is("--rep", 2.0), is("--zf", 0.0)]);
    when(vec![(equal, stay.clone()), (unequal, stay)], plus(var("--ip0"), lit(1.0)))
}

fn counter() -> Expr {
    when(
        vec![(is("--idle", 1.0), var("--cx0"))],
        Expr::Calc(CalcOp::Max(vec![lit(0.0), minus(var("--cx0"), lit(1.0))])),
    )
}

fn read_at(base: Expr, ptr: &str) -> Expr {
    call("--read", vec![plus(base, var(ptr))])
}

fn memory_with_memory(compare: Expr) -> Vec<Assignment> {
    vec![
        keyed("--ip", instruction_pointer()),
        keyed("--cx", counter()),
        keyed("--di", pointer("--di0")),
        keyed("--si", pointer("--si0")),
        keyed("--diff", compare),
        keyed("--cycles", plus(var("--cycles0"), lit(22.0))),
        set("--dst", read_at(times(var("--es"), lit(16.0)), "--di0")),
        set("--src", read_at(var("--base"), "--si0")),
        set("--zf", call("--zero", vec![var("--diff")])),
    ]
}

fn only_loop(assignments: &[Assignment]) -> LoopDescriptor {
    let found = recognise_loops(assignments);
    assert_eq!(found.len(), 1);
    found[0].clone()
}

fn two_reads() -> ComparisonShape {
    ComparisonShape {
        width: 1,
        dst_seg_property: "--es".to_string(),
        dst_seg_times_sixteen: true,
        dst_ptr_property: "--di0".to_string(),
        source: ComparisonSource::Pointer {
            seg_property: "--base".to_string(),
            seg_times_sixteen: false,
            ptr_property: "--si0".to_string(),
        },
        rep_type_property: Some("--rep".to_string()),
    }
}

#[test]
fn difference_of_two_reads_is_a_comparison() {
    let d = only_loop(&memory_with_memory(minus(var("--src"), var("--dst"))));
    assert_eq!(d.bulk_class, BulkClass::ReadOnly);
    assert!(d.flag_conditioned);
    assert_eq!(d.comparison_shape, Some(two_reads()));
}

#[test]
fn adding_a_negative_is_a_comparison() {
    let d = only_loop(&memory_with_memory(plus(var("--src"), negative(var("--dst")))));
    assert_eq!(d.comparison_shape, Some(two_reads()));
}

#[test]
fn a_call_on_two_reads_is_a_comparison() {
    let flags = plus(call("--sub", vec![var("--src"), var("--dst")]), var("--kept"));
    let d = only_loop(&memory_with_memory(flags));
    assert_eq!(d.comparison_shape, Some(two_reads()));
}

#[test]
fn a_sum_of_two_reads_is_no_comparison() {
    let d = only_loop(&memory_with_memory(plus(var("--src"), var("--dst"))));
    assert_eq!(d.comparison_shape, None);
}

#[test]
fn a_register_is_compared_with_memory() {
    let mut assignments = memory_with_memory(minus(var("--al"), var("--dst")));
    assignments.retain(|a| a.property != "--si");
    let d = only_loop(&assignments);
    let shape = d.comparison_shape.unwrap();
    assert_eq!(
        shape.source,
        ComparisonSource::Accumulator {
            byte_property: "--al".to_string(),
            word_property: "--al".to_string(),
        }
    );
    assert_eq!(shape.dst_seg_property, "--es");
}

#[test]
fn the_charge_names_its_property() {
    let d = only_loop(&memory_with_memory(minus(var("--src"), var("--dst"))));
    assert_eq!(
        d.per_iter_cycles,
        Some(CycleCharge { property: "--cycles".to_string(), per_iter: 22 })
    );
    assert_eq!(d.ip_extra_advance_slot, Some("--prefix".to_string()));
}

#[test]
fn outer_tests_become_the_precondition() {
    let mut assignments = memory_with_memory(minus(var("--src"), var("--dst")));
    assert_eq!(only_loop(&assignments).precondition, None);
    let inner = assignments[0].value.clone();
    assignments[0].value = when(
        vec![(is("--trap", 1.0), var("--ip0")), (is("--irq", 1.0), lit(8.0))],
        plus(inner, var("--prefix")),
    );
    assert_eq!(
        only_loop(&assignments).precondition,
        Some(Precondition::NoOverrides(vec![is("--trap", 1.0), is("--irq", 1.0)]))
    );
}

fn renamed(name: &str) -> String {
    match name {
        "--di" => "--zz".to_string(),
        "--di0" => "--zz0".to_string(),
        "--si" => "--aa".to_string(),
        "--si0" => "--aa0".to_string(),
        "--src" => "--ddd".to_string(),
        "--dst" => "--ccc".to_string(),
        "--cycles" => "--bbb".to_string(),
        _ => name.to_string(),
    }
}

fn renamed_test(test: &StyleTest) -> StyleTest {
    match test {
        StyleTest::Single { property, value } => {
            StyleTest::Single { property: renamed(property), value: renamed_expr(value) }
        }
        StyleTest::And(tests) => StyleTest::And(tests.iter().map(renamed_test).collect()),
        StyleTest::Or(tests) => StyleTest::Or(tests.iter().map(renamed_test).collect()),
    }
}

fn renamed_expr(e: &Expr) -> Expr {
    let boxed = |e: &Expr| Box::new(renamed_expr(e));
    match e {
        Expr::Var { name, fallback } => Expr::Var {
            name: renamed(name),
            fallback: fallback.as_ref().map(|f| boxed(f)),
        },
        Expr::Calc(CalcOp::Add(a, b)) => Expr::Calc(CalcOp::Add(boxed(a), boxed(b))),
        Expr::Calc(CalcOp::Sub(a, b)) => Expr::Calc(CalcOp::Sub(boxed(a), boxed(b))),
        Expr::Calc(CalcOp::Mul(a, b)) => Expr::Calc(CalcOp::Mul(boxed(a), boxed(b))),
        Expr::Calc(CalcOp::Max(parts)) => {
            Expr::Calc(CalcOp::Max(parts.iter().map(renamed_expr).collect()))
        }
        Expr::FunctionCall { name, args } => Expr::FunctionCall {
            name: name.clone(),
            args: args.iter().map(renamed_expr).collect(),
        },
        Expr::StyleCondition { branches, fallback } => Expr::StyleCondition {
            branches: branches
                .iter()
                .map(|b| StyleBranch {
                    condition: renamed_test(&b.condition),
                    then: renamed_expr(&b.then),
                })
                .collect(),
            fallback: boxed(fallback),
        },
        other => other.clone(),
    }
}

#[test]
fn names_that_sort_otherwise_give_the_same_loop() {
    let assignments = memory_with_memory(minus(var("--src"), var("--dst")));
    let plain = only_loop(&assignments);
    let other: Vec<Assignment> = assignments
        .iter()
        .map(|a| set(&renamed(&a.property), renamed_expr(&a.value)))
        .collect();
    let found = only_loop(&other);
    let pointers: Vec<&str> = found.pointers.iter().map(|p| p.property.as_str()).collect();
    assert_eq!(pointers, vec!["--zz", "--aa"]);
    let mut expected = plain.clone();
    for p in &mut expected.pointers {
        p.property = renamed(&p.property);
        p.self_property = renamed(&p.self_property);
    }
    if let Some(shape) = &mut expected.comparison_shape {
        shape.dst_ptr_property = "--zz0".to_string();
        if let ComparisonSource::Pointer { ptr_property, .. } = &mut shape.source {
            *ptr_property = "--aa0".to_string();
        }
    }
    if let Some(charge) = &mut expected.per_iter_cycles {
        charge.property = renamed(&charge.property);
    }
    assert_eq!(found, expected);
}

#[test]
fn the_subtracted_read_is_the_destination() {
    let d = only_loop(&memory_with_memory(minus(var("--dst"), var("--src"))));
    let shape = d.comparison_shape.unwrap();
    assert_eq!(shape.dst_ptr_property, "--si0");
    assert_eq!(
        shape.source,
        ComparisonSource::Pointer {
            seg_property: "--es".to_string(),
            seg_times_sixteen: true,
            ptr_property: "--di0".to_string(),
        }
    );
}
